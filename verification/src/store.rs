//! The file store: files kept as chains of clusters in a flash partition.

use vstd::prelude::*;
use vstd::string::StringSliceAdditionalSpecFns;
use vstd::utf8::{decode_utf8, valid_utf8};
use crate::text::{string_from_utf8, utf8_valid};
use crate::crc::{crc32_finalize, crc32_init, crc32_update, crc_feed, lemma_crc_feed_concat};
use crate::flash::Flash;
use crate::recovery::{recovers, recovers_or_gone, recovers_renamed, reopened_read};
use crate::format::{
    cont_cluster_image, cont_image, first_cluster_image, first_image, lemma_addr_to_index,
    lemma_cont_image, lemma_first_image, lemma_tail_image, ChainNext, ParsedHeader, CLUSTER_SIZE, CONT_B, CONT_CAPACITY, CONT_DATA_START, DATA_AREA_END,
    FIRST_META, MAGIC, MAX_NAME_LEN, chain_next, header_name, lemma_spans, need_clusters,
    parse_header, slice_range, span_end, span_start, spec_cap0, spec_chain_next, spec_gen_newer,
    spec_need, spec_parse_header, spec_word, word_at, gen_newer,
};

verus! {

/// Errors returned by [`Store`] operations.
#[derive(Debug, Clone, Copy, PartialEq, Eq, Structural)]
pub enum StoreError {
    /// No file with the given name exists.
    NotFound,
    /// The stored data failed validation (broken chain, CRC mismatch, torn write...).
    Corrupted,
    /// Not enough free clusters. Overwriting keeps the old copy until the new one is
    /// fully written, so both must fit at the same time.
    NoSpace,
    /// The file name exceeds [`MAX_NAME_LEN`] bytes.
    NameTooLong,
    /// `read()` was used on content that is not valid UTF-8 (use `read_bytes()` instead).
    NotUtf8,
    /// The underlying storage returned an error.
    Storage,
}

impl StoreError {
    /// A short description of the error.
    pub fn message(&self) -> (s: &'static str)
        ensures
            s@ == (match *self {
                StoreError::NotFound => "file not found"@,
                StoreError::Corrupted => "data corrupted"@,
                StoreError::NoSpace => "not enough free space"@,
                StoreError::NameTooLong => "file name too long"@,
                StoreError::NotUtf8 => "content is not valid UTF-8"@,
                StoreError::Storage => "flash access error"@,
            }),
    {
        match self {
            StoreError::NotFound => "file not found",
            StoreError::Corrupted => "data corrupted",
            StoreError::NoSpace => "not enough free space",
            StoreError::NameTooLong => "file name too long",
            StoreError::NotUtf8 => "content is not valid UTF-8",
            StoreError::Storage => "flash access error",
        }
    }
}

/// Where a partition lies: its first address, its number of clusters and its size.
#[derive(Clone, Copy)]
pub struct Geo {
    pub base: u32,
    pub n: u32,
    pub size: u32,
}

/// A header found in a cluster.
#[derive(Clone, Copy)]
pub struct FoundFile {
    pub first_cluster: u32,
    pub header: ParsedHeader,
}

// ============================ the model of a partition ============================

/// The bytes of cluster `i`.
pub open spec fn cl(mem: Seq<u8>, g: Geo, i: int) -> Seq<u8> {
    mem.subrange(g.base + i * 4096, g.base + i * 4096 + 4096)
}

/// The first word of cluster `i`.
pub open spec fn word0(mem: Seq<u8>, g: Geo, i: int) -> u32 {
    spec_word(cl(mem, g, i), 0)
}

/// The chain mark of cluster `i`.
pub open spec fn next_of(mem: Seq<u8>, g: Geo, i: int) -> ChainNext {
    spec_chain_next(cl(mem, g, i).subrange(DATA_AREA_END as int, CLUSTER_SIZE as int), g.base, g.n)
}

/// The header of cluster `i`, when it holds one.
pub open spec fn header_at(mem: Seq<u8>, g: Geo, i: int) -> Option<ParsedHeader> {
    spec_parse_header(cl(mem, g, i), g.size)
}

/// The name in the header of cluster `i`.
pub open spec fn name_at(mem: Seq<u8>, g: Geo, i: int) -> Seq<u8> {
    header_name(cl(mem, g, i), header_at(mem, g, i).unwrap().name_len as nat)
}

/// Cluster `i` holds a header of a file named `name`.
pub open spec fn is_copy(mem: Seq<u8>, g: Geo, i: int, name: Seq<u8>) -> bool {
    header_at(mem, g, i) is Some && name_at(mem, g, i) == name
}

/// The fields of `f` lie in the ranges that a parsed header has.
pub open spec fn sane(g: Geo, f: FoundFile) -> bool {
    &&& f.first_cluster < g.n
    &&& f.header.name_len <= MAX_NAME_LEN
    &&& f.header.data_len <= g.size
}

/// `f` is a header named `name` that the partition holds.
pub open spec fn found_ok(mem: Seq<u8>, g: Geo, name: Seq<u8>, f: FoundFile) -> bool {
    &&& f.first_cluster < g.n
    &&& header_at(mem, g, f.first_cluster as int) == Some(f.header)
    &&& name_at(mem, g, f.first_cluster as int) == name
}

/// The headers named `name` among the first `k` clusters, in cluster order.
pub open spec fn found_upto(mem: Seq<u8>, g: Geo, name: Seq<u8>, k: nat) -> Seq<FoundFile>
    decreases k,
{
    if k == 0 {
        Seq::empty()
    } else {
        let prev = found_upto(mem, g, name, (k - 1) as nat);
        let i = k - 1;
        if is_copy(mem, g, i, name) {
            prev.push(FoundFile { first_cluster: i as u32, header: header_at(mem, g, i).unwrap() })
        } else {
            prev
        }
    }
}

/// The headers named `name` in the partition.
pub open spec fn copies(mem: Seq<u8>, g: Geo, name: Seq<u8>) -> Seq<FoundFile> {
    found_upto(mem, g, name, g.n as nat)
}

/// The newest of a list of copies: each later copy replaces the best so far when its
/// generation is newer.
pub open spec fn newest_of(s: Seq<FoundFile>) -> Option<FoundFile>
    decreases s.len(),
{
    if s.len() == 0 {
        None
    } else {
        let f = s.last();
        match newest_of(s.drop_last()) {
            None => Some(f),
            Some(b) => if spec_gen_newer(f.header.generation, b.header.generation) {
                Some(f)
            } else {
                Some(b)
            },
        }
    }
}

/// The clusters reached from `c0` by following `k - 1` chain marks, when each is a link.
pub open spec fn chain(mem: Seq<u8>, g: Geo, c0: u32, k: nat) -> Option<Seq<u32>>
    decreases k,
{
    if k == 0 {
        Some(Seq::empty())
    } else if k == 1 {
        Some(seq![c0])
    } else {
        match chain(mem, g, c0, (k - 1) as nat) {
            Some(cs) => match next_of(mem, g, cs.last() as int) {
                ChainNext::Next(x) => Some(cs.push(x)),
                _ => None,
            },
            None => None,
        }
    }
}

/// The number of clusters a file with header `h` occupies.
pub open spec fn need_of(h: ParsedHeader) -> nat {
    spec_need(h.name_len as nat, h.data_len as nat)
}

/// The chain of the file whose header is `f` is whole: it links exactly as many
/// clusters as the header needs, the later ones are continuation clusters and the
/// last one ends the chain.
pub open spec fn chain_good(mem: Seq<u8>, g: Geo, f: FoundFile) -> bool {
    let q = need_of(f.header);
    match chain(mem, g, f.first_cluster, q) {
        Some(cs) => {
            &&& forall|j: int| 1 <= j < q ==> word0(mem, g, cs[j] as int) == CONT_B
            &&& next_of(mem, g, cs[q - 1] as int) == ChainNext::End
        },
        None => false,
    }
}

/// The data bytes that the `j`-th cluster `c` of a file with header `h` holds.
pub open spec fn slice_of(mem: Seq<u8>, g: Geo, h: ParsedHeader, c: u32, j: nat) -> Seq<u8> {
    let len = span_end(h.name_len as nat, h.data_len as nat, j) - span_start(h.name_len as nat, j);
    let start = if j == 0 {
        h.spec_data_start()
    } else {
        CONT_DATA_START as int
    };
    cl(mem, g, c as int).subrange(start, start + len)
}

/// The data bytes held by the first `k` clusters `cs` of a file with header `h`.
pub open spec fn data_upto(mem: Seq<u8>, g: Geo, h: ParsedHeader, cs: Seq<u32>, k: nat) -> Seq<u8>
    decreases k,
{
    if k == 0 {
        Seq::empty()
    } else {
        data_upto(mem, g, h, cs, (k - 1) as nat) + slice_of(mem, g, h, cs[k - 1], (k - 1) as nat)
    }
}

/// The data of the file whose header is `f`.
pub open spec fn file_data(mem: Seq<u8>, g: Geo, f: FoundFile) -> Seq<u8> {
    let q = need_of(f.header);
    data_upto(mem, g, f.header, chain(mem, g, f.first_cluster, q).unwrap(), q)
}

/// What reading the file whose header is `f` gives: its data when the chain is
/// whole and the data matches its CRC, `Corrupted` otherwise.
pub open spec fn file_read(mem: Seq<u8>, g: Geo, f: FoundFile) -> Result<Seq<u8>, StoreError> {
    if chain_good(mem, g, f) && crate::crc::spec_crc32(file_data(mem, g, f)) == f.header.data_crc {
        Ok(file_data(mem, g, f))
    } else {
        Err(StoreError::Corrupted)
    }
}

/// What reading the file `name` gives.
pub open spec fn read_result(mem: Seq<u8>, g: Geo, name: Seq<u8>) -> Result<Seq<u8>, StoreError> {
    match newest_of(copies(mem, g, name)) {
        None => Err(StoreError::NotFound),
        Some(f) => file_read(mem, g, f),
    }
}

/// Whether cluster `i` counts as taken: it holds a header or a continuation, or it is
/// kept for data of the older format that is not migrated yet.
pub open spec fn used_at(mem: Seq<u8>, g: Geo, v1: Seq<bool>, i: int) -> bool {
    (i < v1.len() && v1[i]) || word0(mem, g, i) == MAGIC || word0(mem, g, i) == CONT_B
}

/// The number of taken clusters among the first `k`.
pub open spec fn used_upto(mem: Seq<u8>, g: Geo, v1: Seq<bool>, k: nat) -> nat
    decreases k,
{
    if k == 0 {
        0
    } else {
        used_upto(mem, g, v1, (k - 1) as nat) + if used_at(mem, g, v1, k - 1) {
            1nat
        } else {
            0nat
        }
    }
}

/// The distinct names of the headers among the first `k` clusters, in cluster order.
pub open spec fn names_upto(mem: Seq<u8>, g: Geo, k: nat) -> Seq<Seq<u8>>
    decreases k,
{
    if k == 0 {
        Seq::empty()
    } else {
        let prev = names_upto(mem, g, (k - 1) as nat);
        let i = k - 1;
        if header_at(mem, g, i) is Some && !prev.contains(name_at(mem, g, i)) {
            prev.push(name_at(mem, g, i))
        } else {
            prev
        }
    }
}

// ============================ lemmas on the model ============================

/// A chain that reaches `m` clusters reaches each shorter length along the same clusters.
pub proof fn lemma_chain_prefix(mem: Seq<u8>, g: Geo, c0: u32, m: nat, k: nat)
    requires
        chain(mem, g, c0, m) is Some,
        k <= m,
    ensures
        chain(mem, g, c0, k) is Some,
        chain(mem, g, c0, m).unwrap().len() == m,
        chain(mem, g, c0, k).unwrap() == chain(mem, g, c0, m).unwrap().take(k as int),
    decreases m,
{
    if m == 0 {
    } else if m == 1 {
        if k == 0 {
            assert(chain(mem, g, c0, m).unwrap().take(0) =~= Seq::<u32>::empty());
        } else {
            assert(chain(mem, g, c0, m).unwrap().take(1) =~= seq![c0]);
        }
    } else {
        lemma_chain_prefix(mem, g, c0, (m - 1) as nat, (m - 1) as nat);
        let cs = chain(mem, g, c0, (m - 1) as nat).unwrap();
        assert(cs.take((m - 1) as int) =~= cs);
        if k == m {
            assert(chain(mem, g, c0, m).unwrap().take(k as int) =~= chain(mem, g, c0, m).unwrap());
        } else {
            lemma_chain_prefix(mem, g, c0, (m - 1) as nat, k);
            assert(chain(mem, g, c0, m).unwrap().take(k as int) =~= cs.take(k as int));
        }
    }
}

/// Data gathered over a prefix of the clusters.
pub proof fn lemma_data_upto_prefix(mem: Seq<u8>, g: Geo, h: ParsedHeader, cs: Seq<u32>, ds: Seq<u32>, k: nat)
    requires
        k <= cs.len(),
        k <= ds.len(),
        cs.take(k as int) == ds.take(k as int),
    ensures
        data_upto(mem, g, h, cs, k) == data_upto(mem, g, h, ds, k),
    decreases k,
{
    if k > 0 {
        assert(cs.take(k - 1) =~= cs.take(k as int).take(k - 1));
        assert(ds.take(k - 1) =~= ds.take(k as int).take(k - 1));
        assert(cs[k - 1] == cs.take(k as int)[k - 1]);
        assert(ds[k - 1] == ds.take(k as int)[k - 1]);
        lemma_data_upto_prefix(mem, g, h, cs, ds, (k - 1) as nat);
    }
}

/// The total number of taken clusters is at most the number of clusters looked at.
pub proof fn lemma_used_upto_bound(mem: Seq<u8>, g: Geo, v1: Seq<bool>, k: nat)
    ensures
        used_upto(mem, g, v1, k) <= k,
    decreases k,
{
    if k > 0 {
        lemma_used_upto_bound(mem, g, v1, (k - 1) as nat);
    }
}

/// Writing a whole cluster changes that cluster and no other.
pub proof fn lemma_cl_update(mem: Seq<u8>, g: Geo, j: int, img: Seq<u8>)
    requires
        0 <= j < g.n,
        g.base + g.n * 4096 <= mem.len(),
        img.len() == CLUSTER_SIZE,
    ensures
        ({
            let m2 = mem.update_subrange_with(g.base + j * 4096, img);
            &&& m2.len() == mem.len()
            &&& cl(m2, g, j) == img
            &&& forall|i: int| 0 <= i < g.n && i != j ==> #[trigger] cl(m2, g, i) == cl(mem, g, i)
        }),
{
    let m2 = mem.update_subrange_with(g.base + j * 4096, img);
    assert(j * 4096 + 4096 <= g.n * 4096) by (nonlinear_arith)
        requires
            j < g.n,
    ;
    assert(cl(m2, g, j) =~= img);
    assert forall|i: int| 0 <= i < g.n && i != j implies #[trigger] cl(m2, g, i) == cl(mem, g, i) by {
        assert(i * 4096 + 4096 <= g.n * 4096) by (nonlinear_arith)
            requires
                i < g.n,
        ;
        if i < j {
            assert(i * 4096 + 4096 <= j * 4096) by (nonlinear_arith)
                requires
                    i < j,
            ;
        } else {
            assert(j * 4096 + 4096 <= i * 4096) by (nonlinear_arith)
                requires
                    j < i,
            ;
        }
        assert(cl(m2, g, i) =~= cl(mem, g, i));
    }
}

// ============================ the store ============================

/// A tiny file store on top of any [`Flash`] device.
pub struct Store<F> {
    flash: F,
    flash_addr: u32,
    flash_size: u32,
    cluster_max_quantity: u32,
    write_cursor: u32,
    /// Map of the clusters that still hold data of the older format; empty when there is none.
    v1_used: Vec<bool>,
    /// The bytes of the device after each write this store made, oldest first.
    written: Ghost<Seq<Seq<u8>>>,
}

impl<F: Flash> Store<F> {
    /// The device.
    pub closed spec fn device(&self) -> F {
        self.flash
    }

    /// The bytes the device holds.
    pub open spec fn mem(&self) -> Seq<u8> {
        self.device().contents()
    }

    /// Where the partition lies.
    pub closed spec fn geo(&self) -> Geo {
        Geo { base: self.flash_addr, n: self.cluster_max_quantity, size: self.flash_size }
    }

    /// The clusters kept for data of the older format.
    pub closed spec fn v1_map(&self) -> Seq<bool> {
        self.v1_used@
    }

    /// The next cluster the allocator looks at first.
    pub closed spec fn cursor(&self) -> u32 {
        self.write_cursor
    }

    /// The bytes of the device after each write this store made to it, oldest first:
    /// the states a power loss can leave behind, each write taken as one step.
    pub closed spec fn history(&self) -> Seq<Seq<u8>> {
        self.written@
    }

    /// The partition is well placed: aligned, at least one cluster, inside the address space.
    pub open spec fn inv(&self) -> bool {
        &&& self.geo().n == self.geo().size / 4096
        &&& self.geo().n >= 1
        &&& self.geo().base % 4096 == 0
        &&& self.geo().base + self.geo().n * 4096 <= 0x1_0000_0000
        &&& self.cursor() < self.geo().n
        &&& (self.v1_map().len() == 0 || self.v1_map().len() == self.geo().n)
    }

    /// The device holds the whole partition.
    pub open spec fn fits(&self) -> bool {
        self.geo().base + self.geo().n * 4096 <= self.mem().len()
    }

    /// Every access to the partition succeeds: the device is reliable and holds the
    /// whole partition.
    pub open spec fn healthy(&self) -> bool {
        &&& self.device().reliable()
        &&& self.fits()
    }

    /// Everything but the bytes of the device is as in `old`.
    pub open spec fn frame(&self, old: &Self) -> bool {
        &&& self.device().reliable() == old.device().reliable()
        &&& self.mem().len() == old.mem().len()
        &&& self.geo() == old.geo()
        &&& self.cursor() == old.cursor()
        &&& self.v1_map() == old.v1_map()
    }

    /// Nothing but the map of clusters of the older format has changed.
    pub open spec fn same_but_v1(&self, old: &Self) -> bool {
        &&& self.device().reliable() == old.device().reliable()
        &&& self.mem() == old.mem()
        &&& self.geo() == old.geo()
        &&& self.cursor() == old.cursor()
    }

    /// Nothing that the contracts see has changed.
    pub open spec fn same(&self, old: &Self) -> bool {
        self.frame(old) && self.mem() == old.mem() && self.history() == old.history()
    }

    /// Nothing but the allocator's cursor and the bytes of clusters has changed.
    pub open spec fn keeps_layout(&self, old: &Self) -> bool {
        &&& self.device().reliable() == old.device().reliable()
        &&& self.mem().len() == old.mem().len()
        &&& self.geo() == old.geo()
        &&& self.v1_map() == old.v1_map()
    }

    proof fn lemma_healthy_frame(&self, old: &Self)
        requires
            self.frame(old),
        ensures
            self.healthy() == old.healthy(),
            self.inv() == old.inv(),
    {
    }

    // ============================ low-level flash access ============================

    fn cluster_addr(&self, cluster_number: u32) -> (a: u32)
        requires
            self.inv(),
            cluster_number < self.cluster_max_quantity,
        ensures
            a == self.flash_addr + cluster_number * 4096,
            a + 4096 <= 0x1_0000_0000,
    {
        proof {
            assert(cluster_number * 4096 + 4096 <= self.cluster_max_quantity * 4096) by (
            nonlinear_arith)
                requires
                    cluster_number < self.cluster_max_quantity,
            ;
        }
        self.flash_addr + cluster_number * 4096
    }

    /// Reads cluster `i` whole.
    fn read_cluster(&mut self, cluster_number: u32) -> (r: Result<Vec<u8>, StoreError>)
        requires
            old(self).inv(),
            cluster_number < old(self).cluster_max_quantity,
        ensures
            final(self).same(old(self)),
            r matches Ok(v) ==> v@.len() == CLUSTER_SIZE,
            old(self).fits() ==> (r matches Ok(v) ==> v@ == cl(old(self).mem(), old(self).geo(), cluster_number as int)),
            r matches Err(e) ==> e == StoreError::Storage,
            old(self).healthy() ==> r is Ok,
    {
        let addr = self.cluster_addr(cluster_number);
        let mut buf: Vec<u8> = vec![0u8; CLUSTER_SIZE];
        proof {
            assert(cluster_number * 4096 + 4096 <= self.cluster_max_quantity * 4096) by (
            nonlinear_arith)
                requires
                    cluster_number < self.cluster_max_quantity,
            ;
        }
        match self.flash.read(addr, buf.as_mut_slice()) {
            Ok(()) => Ok(buf),
            Err(()) => Err(StoreError::Storage),
        }
    }

    /// Reads the first word of cluster `i`.
    fn read_first_word(&mut self, cluster_number: u32) -> (r: Result<u32, StoreError>)
        requires
            old(self).inv(),
            cluster_number < old(self).cluster_max_quantity,
        ensures
            final(self).same(old(self)),
            old(self).fits() ==> (r matches Ok(w) ==> w == word0(old(self).mem(), old(self).geo(), cluster_number as int)),
            r matches Err(e) ==> e == StoreError::Storage,
            old(self).healthy() ==> r is Ok,
    {
        let addr = self.cluster_addr(cluster_number);
        let mut b: Vec<u8> = vec![0u8; 4];
        proof {
            assert(cluster_number * 4096 + 4096 <= self.cluster_max_quantity * 4096) by (
            nonlinear_arith)
                requires
                    cluster_number < self.cluster_max_quantity,
            ;
        }
        match self.flash.read(addr, b.as_mut_slice()) {
            Ok(()) => {
                proof {
                    if self.fits() {
                        let c = cl(self.mem(), self.geo(), cluster_number as int);
                        assert(b@ =~= c.subrange(0, 4));
                    }
                }
                Ok(word_at(b.as_slice(), 0))
            },
            Err(()) => Err(StoreError::Storage),
        }
    }

    /// Reads the chain mark (last 8 bytes) of cluster `i`.
    fn read_tail(&mut self, cluster_number: u32) -> (r: Result<Vec<u8>, StoreError>)
        requires
            old(self).inv(),
            cluster_number < old(self).cluster_max_quantity,
        ensures
            final(self).same(old(self)),
            old(self).fits() ==> (r matches Ok(v) ==> v@ == cl(old(self).mem(), old(self).geo(), cluster_number as int).subrange(
                DATA_AREA_END as int,
                CLUSTER_SIZE as int,
            )),
            r matches Err(e) ==> e == StoreError::Storage,
            r matches Ok(v) ==> v@.len() == 8,
            old(self).healthy() ==> r is Ok,
    {
        let addr = self.cluster_addr(cluster_number) + DATA_AREA_END as u32;
        let mut b: Vec<u8> = vec![0u8; 8];
        match self.flash.read(addr, b.as_mut_slice()) {
            Ok(()) => {
                proof {
                    if self.fits() {
                        let c = cl(self.mem(), self.geo(), cluster_number as int);
                        assert(b@ =~= c.subrange(4088, 4096));
                    }
                }
                Ok(b)
            },
            Err(()) => Err(StoreError::Storage),
        }
    }

    /// Writes a whole cluster.
    fn write_cluster(&mut self, cluster_number: u32, img: &[u8]) -> (r: Result<(), StoreError>)
        requires
            old(self).inv(),
            cluster_number < old(self).cluster_max_quantity,
            img@.len() == CLUSTER_SIZE,
        ensures
            final(self).frame(old(self)),
            old(self).fits() && r is Ok ==> final(self).mem() == old(self).mem().update_subrange_with(
                old(self).flash_addr + cluster_number * 4096,
                img@,
            ),
            r matches Err(e) ==> e == StoreError::Storage,
            old(self).healthy() ==> r is Ok,
            final(self).history() == old(self).history().push(final(self).mem()),
    {
        let addr = self.cluster_addr(cluster_number);
        proof {
            assert(cluster_number * 4096 + 4096 <= self.cluster_max_quantity * 4096) by (
            nonlinear_arith)
                requires
                    cluster_number < self.cluster_max_quantity,
            ;
        }
        let r = match self.flash.write(addr, img) {
            Ok(()) => Ok(()),
            Err(()) => Err(StoreError::Storage),
        };
        proof {
            self.written@ = self.written@.push(self.flash.contents());
        }
        r
    }

    /// Erases a cluster (all bytes 0xFF).
    fn erase_cluster(&mut self, cluster_number: u32) -> (r: Result<(), StoreError>)
        requires
            old(self).inv(),
            cluster_number < old(self).cluster_max_quantity,
        ensures
            final(self).frame(old(self)),
            old(self).fits() && r is Ok ==> final(self).mem() == old(self).mem().update_subrange_with(
                old(self).flash_addr + cluster_number * 4096,
                crate::format::ff(4096),
            ),
            r matches Err(e) ==> e == StoreError::Storage,
            old(self).healthy() ==> r is Ok,
            final(self).history() == old(self).history().push(final(self).mem()),
    {
        let img: Vec<u8> = vec![0xFFu8; CLUSTER_SIZE];
        assert(img@ =~= crate::format::ff(4096));
        self.write_cluster(cluster_number, img.as_slice())
    }
}

/// Whether two byte strings are equal.
pub fn bytes_eq(a: &[u8], b: &[u8]) -> (r: bool)
    ensures
        r == (a@ == b@),
{
    if a.len() != b.len() {
        return false;
    }
    let mut i: usize = 0;
    while i < a.len()
        invariant
            a@.len() == b@.len(),
            i <= a@.len(),
            forall|k: int| 0 <= k < i ==> a@[k] == b@[k],
        decreases a@.len() - i,
    {
        if a[i] != b[i] {
            return false;
        }
        i = i + 1;
    }
    assert(a@ =~= b@);
    true
}

impl<F: Flash> Store<F> {
    /// Every header named `name`, in cluster order.
    fn find_files(&mut self, file_name: &[u8]) -> (out: Vec<FoundFile>)
        requires
            old(self).inv(),
        ensures
            final(self).same(old(self)),
            old(self).healthy() ==> out@ == copies(old(self).mem(), old(self).geo(), file_name@),
            forall|j: int| 0 <= j < out@.len() ==> sane(old(self).geo(), #[trigger] out@[j]),
            old(self).fits() ==> forall|j: int|
                0 <= j < out@.len() ==> found_ok(old(self).mem(), old(self).geo(), file_name@, #[trigger] out@[j]),
    {
        let mut out: Vec<FoundFile> = Vec::new();
        let n = self.cluster_max_quantity;
        let ghost g = self.geo();
        let ghost mem = self.mem();
        let mut i: u32 = 0;
        while i < n
            invariant
                self.same(old(self)),
                old(self).inv(),
                n == self.cluster_max_quantity,
                g == self.geo(),
                mem == self.mem(),
                i <= n,
                old(self).healthy() ==> out@ == found_upto(mem, g, file_name@, i as nat),
                forall|j: int| 0 <= j < out@.len() ==> sane(g, #[trigger] out@[j]),
                old(self).fits() ==> forall|j: int| 0 <= j < out@.len() ==> found_ok(mem, g, file_name@, #[trigger] out@[j]),
            decreases n - i,
        {
            proof {
                self.lemma_healthy_frame(old(self));
            }
            let w = self.read_first_word(i);
            let skip = match w {
                Ok(w) => w != MAGIC,
                Err(_) => true,
            };
            if !skip {
                if let Ok(buf) = self.read_cluster(i) {
                    if let Some(header) = parse_header(buf.as_slice(), self.flash_size) {
                        let name_end = crate::format::HEADER_FIXED + header.name_len;
                        if bytes_eq(slice_range(buf.as_slice(), crate::format::HEADER_FIXED, name_end), file_name) {
                            out.push(FoundFile { first_cluster: i, header });
                        }
                    }
                }
            }
            i = i + 1;
        }
        out
    }

    /// The newest header named `name`.
    fn newest_file(&mut self, file_name: &[u8]) -> (r: Result<FoundFile, StoreError>)
        requires
            old(self).inv(),
        ensures
            final(self).same(old(self)),
            old(self).healthy() ==> r == (match newest_of(copies(old(self).mem(), old(self).geo(), file_name@)) {
                Some(f) => Ok(f),
                None => Err(StoreError::NotFound),
            }),
            r matches Err(e) ==> e == StoreError::NotFound,
            r matches Ok(f) ==> sane(old(self).geo(), f),
            old(self).fits() ==> (r matches Ok(f) ==> found_ok(old(self).mem(), old(self).geo(), file_name@, f)),
    {
        let found = self.find_files(file_name);
        let mut best: Option<FoundFile> = None;
        let mut k: usize = 0;
        while k < found.len()
            invariant
                k <= found@.len(),
                best == newest_of(found@.take(k as int)),
                best matches Some(b) ==> found@.take(k as int).contains(b),
            decreases found@.len() - k,
        {
            let f = found[k];
            assert(found@.take(k + 1).drop_last() =~= found@.take(k as int));
            assert(found@.take(k + 1) =~= found@.take(k as int).push(f));
            best = match best {
                None => Some(f),
                Some(b) => {
                    if gen_newer(f.header.generation, b.header.generation) {
                        Some(f)
                    } else {
                        Some(b)
                    }
                },
            };
            k = k + 1;
        }
        assert(found@.take(k as int) =~= found@);
        proof {
            if best is Some {
                let j = choose|j: int| 0 <= j < found@.len() && found@[j] == best.unwrap();
                assert(sane(self.geo(), found@[j]));
                assert(self.fits() ==> found_ok(self.mem(), self.geo(), file_name@, found@[j]));
            }
        }
        match best {
            Some(f) => Ok(f),
            None => Err(StoreError::NotFound),
        }
    }
}

/// The bytes of a result, when it holds a vector.
pub open spec fn res_view(r: Result<Vec<u8>, StoreError>) -> Result<Seq<u8>, StoreError> {
    match r {
        Ok(v) => Ok(v@),
        Err(e) => Err(e),
    }
}

impl<F: Flash> Store<F> {
    /// Reads the data of the file whose header is `f`, checking its chain and CRC.
    fn read_file(&mut self, f: FoundFile) -> (r: Result<Vec<u8>, StoreError>)
        requires
            old(self).inv(),
            f.first_cluster < old(self).cluster_max_quantity,
            f.header.name_len <= MAX_NAME_LEN,
            f.header.data_len <= old(self).geo().size,
            old(self).fits() ==> header_at(old(self).mem(), old(self).geo(), f.first_cluster as int) == Some(f.header),
        ensures
            final(self).same(old(self)),
            old(self).healthy() ==> res_view(r) == file_read(old(self).mem(), old(self).geo(), f),
            r matches Err(e) ==> e == StoreError::Corrupted || e == StoreError::Storage,
            old(self).fits() && r is Ok ==> res_view(r) == file_read(old(self).mem(), old(self).geo(), f),
    {
        let ghost mem = self.mem();
        let ghost g = self.geo();
        let ghost fit = self.fits();
        let h = f.header;
        let ghost l = h.name_len as nat;
        let ghost d = h.data_len as nat;
        let expected = need_clusters(h.name_len, h.data_len);
        let ghost q = expected as nat;
        let mut out: Vec<u8> = Vec::new();
        let mut crc = crc32_init();
        let mut remaining = h.data_len;
        let mut data_start = h.data_start();
        let mut visited: u32 = 1;
        let mut cur = f.first_cluster;
        let mut buf = self.read_cluster(cur)?;
        let ghost mut cs: Seq<u32> = seq![cur];
        assert(data_upto(mem, g, h, cs, 0) =~= out@);
        loop
            invariant_except_break
                data_start == (if visited == 1 {
                    h.spec_data_start()
                } else {
                    CONT_DATA_START as int
                }),
                remaining == d - span_start(l, (visited - 1) as nat),
                fit ==> out@ == data_upto(mem, g, h, cs, (visited - 1) as nat),
                crc == crc_feed(0xFFFF_FFFFu32, out@),
            invariant
                self.same(old(self)),
                old(self).inv(),
                mem == self.mem(),
                g == self.geo(),
                fit == old(self).fits(),
                h == f.header,
                l == h.name_len,
                d == h.data_len,
                h.name_len <= MAX_NAME_LEN,
                h.data_len <= g.size,
                q == need_of(h),
                expected == q,
                1 <= visited <= q,
                cur < g.n,
                buf@.len() == CLUSTER_SIZE,
                fit ==> buf@ == cl(mem, g, cur as int),
                cs.len() == visited,
                cs.last() == cur,
                fit ==> chain(mem, g, f.first_cluster, visited as nat) == Some(cs),
                fit ==> forall|j: int| 1 <= j < visited ==> word0(mem, g, cs[j] as int) == CONT_B,
            ensures
                remaining == d - span_end(l, d, (visited - 1) as nat),
                fit ==> out@ == data_upto(mem, g, h, cs, visited as nat),
                crc == crc_feed(0xFFFF_FFFFu32, out@),
                fit ==> next_of(mem, g, cur as int) == ChainNext::End,
            decreases q - visited,
        {
            let ghost k = (visited - 1) as nat;
            proof {
                lemma_spans(l, d, k);
                if k + 1 < q {
                    lemma_spans(l, d, k + 1);
                }
            }
            let avail = DATA_AREA_END - data_start;
            let take = if remaining < avail {
                remaining
            } else {
                avail
            };
            assert(take == span_end(l, d, k) - span_start(l, k));
            let chunk = slice_range(buf.as_slice(), data_start, data_start + take);
            assert(fit ==> chunk@ == slice_of(mem, g, h, cur, k));
            proof {
                lemma_crc_feed_concat(0xFFFF_FFFFu32, out@, chunk@);
            }
            let ghost old_out = out@;
            out.extend_from_slice(chunk);
            assert(out@ =~= old_out + chunk@);
            crc = crc32_update(crc, chunk);
            remaining = remaining - take;
            assert(fit ==> out@ =~= data_upto(mem, g, h, cs, visited as nat));
            let tail = slice_range(buf.as_slice(), DATA_AREA_END, CLUSTER_SIZE);
            match chain_next(tail, self.flash_addr, self.cluster_max_quantity) {
                ChainNext::End => {
                    break ;
                },
                ChainNext::Broken => {
                    proof {
                        if fit && chain_good(mem, g, f) {
                            if visited < q {
                                lemma_chain_prefix(mem, g, f.first_cluster, q, (visited + 1) as nat);
                            }
                        }
                    }
                    return Err(StoreError::Corrupted);
                },
                ChainNext::Next(nx) => {
                    if remaining == 0 || visited >= expected {
                        proof {
                            if visited < q {
                                lemma_spans(l, d, k);
                            }
                        }
                        return Err(StoreError::Corrupted);
                    }
                    visited = visited + 1;
                    cur = nx;
                    proof {
                        let old_cs = cs;
                        cs = cs.push(nx);
                        assert(cs.take(visited - 1) =~= old_cs.take(visited - 1));
                        lemma_data_upto_prefix(mem, g, h, cs, old_cs, (visited - 1) as nat);
                    }
                    buf = self.read_cluster(cur)?;
                    if word_at(buf.as_slice(), 0) != CONT_B {
                        proof {
                            if fit && chain_good(mem, g, f) {
                                lemma_chain_prefix(mem, g, f.first_cluster, q, visited as nat);
                                let cq = chain(mem, g, f.first_cluster, q).unwrap();
                                assert(cq[visited - 1] == cs[visited - 1]);
                            }
                        }
                        return Err(StoreError::Corrupted);
                    }
                    data_start = CONT_DATA_START;
                },
            }
        }
        if remaining != 0 {
            proof {
                if fit && chain_good(mem, g, f) {
                    lemma_spans(l, d, (visited - 1) as nat);
                    lemma_chain_prefix(mem, g, f.first_cluster, q, (visited + 1) as nat);
                }
            }
            return Err(StoreError::Corrupted);
        }
        proof {
            lemma_spans(l, d, (visited - 1) as nat);
            if visited < q {
                lemma_spans(l, d, visited as nat);
            }
            assert(visited == q);
            assert(fit ==> chain_good(mem, g, f));
        }
        if crc32_finalize(crc) != h.data_crc {
            return Err(StoreError::Corrupted);
        }
        Ok(out)
    }
}

/// The index of the cluster of a file (name of `name_len` bytes) that holds the data
/// byte at offset `pos`.
pub open spec fn cluster_of(name_len: nat, pos: int) -> nat {
    if pos < spec_cap0(name_len) {
        0
    } else {
        (1 + (pos - spec_cap0(name_len)) / (CONT_CAPACITY as int)) as nat
    }
}

/// The cluster that `cluster_of` names holds the byte: it is one of the file's
/// clusters and its span covers `pos`.
pub proof fn lemma_cluster_of(name_len: nat, data_len: nat, pos: int)
    requires
        name_len <= MAX_NAME_LEN,
        0 <= pos < data_len,
    ensures
        cluster_of(name_len, pos) < spec_need(name_len, data_len),
        span_start(name_len, cluster_of(name_len, pos)) <= pos < span_end(name_len, data_len, cluster_of(name_len, pos)),
{
    let cap0 = spec_cap0(name_len);
    if pos >= cap0 {
        let x = (pos - cap0) / 4080;
        assert(x * 4080 <= pos - cap0 < x * 4080 + 4080) by (nonlinear_arith)
            requires
                x == (pos - cap0) / 4080,
                pos - cap0 >= 0,
        ;
        assert((data_len - cap0 + 4079) / 4080 >= x + 1) by (nonlinear_arith)
            requires
                data_len - cap0 >= x * 4080 + 1,
                x >= 0,
        ;
        assert(span_start(name_len, (x + 2) as nat) == cap0 + (x + 1) * 4080);
        assert((x + 1) * 4080 == x * 4080 + 4080) by (nonlinear_arith);
    }
}

/// Spans of earlier clusters end before later ones start.
pub proof fn lemma_span_order(name_len: nat, data_len: nat, i: nat, j: nat)
    requires
        i < j,
    ensures
        span_end(name_len, data_len, i) <= span_start(name_len, j),
{
    assert(span_end(name_len, data_len, i) <= span_start(name_len, i + 1));
    if i + 1 < j {
        assert(i * 4080 <= (j - 1) * 4080) by (nonlinear_arith)
            requires
                i <= j - 1,
        ;
    }
}

/// The data gathered from the first `k` clusters of a file is as long as their spans.
pub proof fn lemma_data_upto_len(mem: Seq<u8>, g: Geo, h: ParsedHeader, cs: Seq<u32>, k: nat)
    requires
        h.name_len <= MAX_NAME_LEN,
        g.base + g.n * 4096 <= mem.len(),
        k <= cs.len(),
        k <= need_of(h),
        forall|j: int| 0 <= j < k ==> #[trigger] cs[j] < g.n,
    ensures
        data_upto(mem, g, h, cs, k).len() == span_start(h.name_len as nat, k) || k == need_of(h),
        k >= 1 ==> data_upto(mem, g, h, cs, k).len() == span_end(h.name_len as nat, h.data_len as nat, (k - 1) as nat),
        k == 0 ==> data_upto(mem, g, h, cs, k).len() == 0,
    decreases k,
{
    let l = h.name_len as nat;
    let d = h.data_len as nat;
    if k >= 1 {
        lemma_data_upto_len(mem, g, h, cs, (k - 1) as nat);
        lemma_spans(l, d, (k - 1) as nat);
        if k >= 2 {
            lemma_spans(l, d, (k - 2) as nat);
        }
        let c = cs[k - 1];
        assert(c * 4096 + 4096 <= g.n * 4096) by (nonlinear_arith)
            requires
                c < g.n,
        ;
        assert(cl(mem, g, c as int).len() == 4096);
        if k < need_of(h) {
            lemma_spans(l, d, k);
        }
    }
}

/// The number of bytes a read of `buf_len` bytes at `offset` copies from the file `f`.
pub open spec fn window_len(f: FoundFile, offset: nat, buf_len: nat) -> nat {
    let rest = (f.header.data_len - offset) as nat;
    if buf_len < rest {
        buf_len
    } else {
        rest
    }
}

/// The file `f` can be read over `[offset, offset + want)`: its chain reaches the
/// cluster holding the last byte wanted, and each later cluster that holds part of
/// the window is a continuation cluster.
pub open spec fn window_ok(mem: Seq<u8>, g: Geo, f: FoundFile, offset: nat, want: nat) -> bool {
    let l = f.header.name_len as nat;
    let d = f.header.data_len as nat;
    let e = cluster_of(l, offset + want - 1);
    match chain(mem, g, f.first_cluster, e + 1) {
        Some(cs) => forall|j: int|
            1 <= j <= e && span_end(l, d, j as nat) > offset ==> word0(mem, g, #[trigger] cs[j] as int) == CONT_B,
        None => false,
    }
}

/// The bytes `[offset, offset + want)` of the file `f`, gathered along its chain.
pub open spec fn window_data(mem: Seq<u8>, g: Geo, f: FoundFile, offset: nat, want: nat) -> Seq<u8> {
    let e = cluster_of(f.header.name_len as nat, offset + want - 1);
    data_upto(mem, g, f.header, chain(mem, g, f.first_cluster, e + 1).unwrap(), e + 1).subrange(
        offset as int,
        (offset + want) as int,
    )
}

/// What reading `before.len()` bytes at `offset` of the file `name` gives, and what
/// the buffer then holds.
pub open spec fn range_outcome(
    mem: Seq<u8>,
    g: Geo,
    name: Seq<u8>,
    offset: nat,
    before: Seq<u8>,
    r: Result<usize, StoreError>,
    after: Seq<u8>,
) -> bool {
    match newest_of(copies(mem, g, name)) {
        None => r == Err::<usize, StoreError>(StoreError::NotFound) && after == before,
        Some(f) => if offset >= f.header.data_len || before.len() == 0 {
            r == Ok::<usize, StoreError>(0) && after == before
        } else {
            let want = window_len(f, offset, before.len());
            if window_ok(mem, g, f, offset, want) {
                r == Ok::<usize, StoreError>(want as usize) && after == before.update_subrange_with(
                    0,
                    window_data(mem, g, f, offset, want),
                )
            } else {
                r == Err::<usize, StoreError>(StoreError::Corrupted)
            }
        },
    }
}

/// Copies `src` into `dst` at `at`.
fn copy_into(dst: &mut [u8], at: usize, src: &[u8])
    requires
        at + src@.len() <= old(dst)@.len(),
    ensures
        final(dst)@ == old(dst)@.update_subrange_with(at as int, src@),
{
    let ghost d0 = dst@;
    let n = dst.len();
    let mut i: usize = 0;
    while i < src.len()
        invariant
            n == d0.len(),
            at + src@.len() <= d0.len(),
            dst@.len() == d0.len(),
            i <= src@.len(),
            forall|k: int| 0 <= k < d0.len() ==> dst@[k] == (if at <= k < at + i {
                src@[k - at]
            } else {
                d0[k]
            }),
        decreases src@.len() - i,
    {
        dst[at + i] = src[i];
        i = i + 1;
    }
    assert(dst@ =~= d0.update_subrange_with(at as int, src@));
}

impl<F: Flash> Store<F> {
    /// Read part of a file into `buf`, starting at byte `offset`.
    ///
    /// Returns the number of bytes copied (0 if `offset` is at or past the end).
    /// Useful for large files that do not fit in RAM. Unlike [`Store::read_bytes`],
    /// the content CRC is not verified (that would require reading the whole file);
    /// clusters before the window are skipped by their chain marks alone.
    #[verifier::spinoff_prover]
    #[verifier::rlimit(100)]
    pub fn read_range(&mut self, file_name: &str, offset: usize, buf: &mut [u8]) -> (r: Result<usize, StoreError>)
        requires
            old(self).inv(),
        ensures
            final(self).same(old(self)),
            final(buf)@.len() == old(buf)@.len(),
            r matches Ok(n) ==> n <= old(buf)@.len(),
            r matches Err(e) ==> e == StoreError::NotFound || e == StoreError::Corrupted || e == StoreError::Storage,
            old(self).healthy() ==> range_outcome(
                old(self).mem(),
                old(self).geo(),
                file_name.spec_bytes(),
                offset as nat,
                old(buf)@,
                r,
                final(buf)@,
            ),
    {
        let ghost mem = self.mem();
        let ghost g = self.geo();
        let ghost h = self.healthy();
        let ghost before = buf@;
        let f = self.newest_file(file_name.as_bytes())?;
        let hd = f.header;
        let data_len = hd.data_len;
        if offset >= data_len || buf.len() == 0 {
            return Ok(0);
        }
        let want = if buf.len() < data_len - offset {
            buf.len()
        } else {
            data_len - offset
        };
        let expected = need_clusters(hd.name_len, data_len);
        let ghost l = hd.name_len as nat;
        let ghost d = data_len as nat;
        let ghost q = expected as nat;
        let ghost e = cluster_of(l, offset + want - 1);
        proof {
            lemma_cluster_of(l, d, offset + want - 1);
            assert(want == window_len(f, offset as nat, before.len()));
        }
        let mut cur = f.first_cluster;
        let mut visited: u32 = 1;
        let mut file_pos: usize = 0;
        let mut copied: usize = 0;
        let ghost mut cs: Seq<u32> = seq![cur];
        assert(data_upto(mem, g, hd, cs, 0) =~= Seq::<u8>::empty());
        loop
            invariant
                self.same(old(self)),
                old(self).inv(),
                mem == self.mem(),
                g == self.geo(),
                h == old(self).healthy(),
                sane(g, f),
                h ==> found_ok(mem, g, file_name.spec_bytes(), f),
                h ==> newest_of(copies(mem, g, file_name.spec_bytes())) == Some(f),
                hd == f.header,
                l == hd.name_len,
                d == hd.data_len,
                data_len == hd.data_len,
                l <= MAX_NAME_LEN,
                d <= g.size,
                q == spec_need(l, d),
                expected == q,
                before.len() > 0,
                offset < d,
                1 <= want <= before.len(),
                offset + want <= d,
                want == window_len(f, offset as nat, before.len()),
                e == cluster_of(l, offset + want - 1),
                e < q,
                span_start(l, e) <= offset + want - 1 < span_end(l, d, e),
                1 <= visited <= e + 1,
                cur < g.n,
                file_pos == span_start(l, (visited - 1) as nat),
                file_pos < offset + want,
                copied == (if file_pos <= offset {
                    0
                } else {
                    file_pos - offset
                }),
                before == old(buf)@,
                buf@.len() == before.len(),
                forall|k: int| copied <= k < before.len() ==> buf@[k] == before[k],
                h ==> chain(mem, g, f.first_cluster, visited as nat) == Some(cs),
                h ==> cs.len() == visited && cs.last() == cur,
                h ==> forall|j: int|
                    1 <= j < visited - 1 && span_end(l, d, j as nat) > offset ==> word0(mem, g, #[trigger] cs[j] as int) == CONT_B,
                h ==> forall|k: int|
                    0 <= k < copied ==> buf@[k] == data_upto(mem, g, hd, cs, (visited - 1) as nat)[offset + k],
            decreases q - visited,
        {
            let ghost j = (visited - 1) as nat;
            let ghost cur0 = cur;
            proof {
                lemma_spans(l, d, j);
                if h {
                    lemma_chain_in_range(mem, g, f.first_cluster, visited as nat);
                    lemma_data_upto_len(mem, g, hd, cs, j);
                    if j >= 1 {
                        lemma_spans(l, d, (j - 1) as nat);
                    }
                }
            }
            let data_start = if visited == 1 {
                hd.data_start()
            } else {
                CONT_DATA_START
            };
            let cap = DATA_AREA_END - data_start;
            let take = if data_len - file_pos < cap {
                data_len - file_pos
            } else {
                cap
            };
            assert(file_pos + take == span_end(l, d, j));
            let seg_s = if file_pos > offset {
                file_pos
            } else {
                offset
            };
            let seg_e = if file_pos + take < offset + want {
                file_pos + take
            } else {
                offset + want
            };
            let ghost buf_before = buf@;
            let ghost copied_before = copied;
            let next = if seg_e > seg_s {
                let cbuf = self.read_cluster(cur)?;
                if visited > 1 && word_at(cbuf.as_slice(), 0) != CONT_B {
                    proof {
                        if h {
                            if let Some(full) = chain(mem, g, f.first_cluster, e + 1) {
                                lemma_chain_prefix(mem, g, f.first_cluster, e + 1, visited as nat);
                                assert(full[j as int] == cs[j as int]);
                            }
                        }
                    }
                    return Err(StoreError::Corrupted);
                }
                assert(h && visited > 1 ==> word0(mem, g, cur as int) == CONT_B);
                let src = data_start + (seg_s - file_pos);
                copy_into(&mut *buf, seg_s - offset, slice_range(cbuf.as_slice(), src, src + (seg_e - seg_s)));
                copied = copied + (seg_e - seg_s);
                proof {
                    if h {
                        let dd = data_upto(mem, g, hd, cs, j);
                        let d2 = data_upto(mem, g, hd, cs, j + 1);
                        assert(d2 == dd + slice_of(mem, g, hd, cs[j as int], j));
                        assert(dd.len() == file_pos);
                        assert forall|k: int| 0 <= k < copied implies buf@[k] == d2[offset + k] by {
                            if k < copied_before {
                                assert(buf@[k] == buf_before[k]);
                            }
                        }
                    }
                }
                chain_next(slice_range(cbuf.as_slice(), DATA_AREA_END, CLUSTER_SIZE), self.flash_addr, self.cluster_max_quantity)
            } else {
                let tail = self.read_tail(cur)?;
                chain_next(tail.as_slice(), self.flash_addr, self.cluster_max_quantity)
            };
            file_pos = file_pos + take;
            assert(h && j >= 1 && span_end(l, d, j) > offset ==> word0(mem, g, cur as int) == CONT_B);
            proof {
                if j < e {
                    lemma_span_order(l, d, j, e);
                }
                if h {
                    assert(next == next_of(mem, g, cur as int));
                }
            }
            if copied == want {
                proof {
                    if h {
                        assert(j == e);
                        assert forall|k: int| 0 <= k < before.len() implies buf@[k] == before.update_subrange_with(0, window_data(mem, g, f, offset as nat, want as nat))[k] by {
                        }
                        assert(buf@ =~= before.update_subrange_with(0, window_data(mem, g, f, offset as nat, want as nat)));
                    }
                }
                return Ok(copied);
            }
            assert(j < e);
            match next {
                ChainNext::Next(nx) => {
                    if visited >= expected {
                        return Err(StoreError::Corrupted);
                    }
                    let ghost old_cs = cs;
                    visited = visited + 1;
                    cur = nx;
                    proof {
                        cs = cs.push(nx);
                        if h {
                            assert(cs.take(j + 1 as int) =~= old_cs);
                            assert(old_cs.take(j + 1 as int) =~= old_cs);
                            lemma_data_upto_prefix(mem, g, hd, cs, old_cs, j + 1);
                            assert(forall|t: int| 0 <= t < j + 1 ==> cs[t] == old_cs[t]);
                            assert(cs[j as int] == cur0);
                            assert forall|t: int| 1 <= t < visited - 1 && span_end(l, d, t as nat) > offset implies word0(mem, g, #[trigger] cs[t] as int) == CONT_B by {
                                if t < j {
                                    assert(cs[t] == old_cs[t]);
                                } else {
                                    assert(t == j);
                                }
                            }
                        }
                    }
                },
                _ => {
                    proof {
                        if h {
                            if chain(mem, g, f.first_cluster, e + 1) is Some {
                                lemma_chain_prefix(mem, g, f.first_cluster, e + 1, j + 2);
                            }
                        }
                    }
                    return Err(StoreError::Corrupted);
                },
            }
        }
    }
}

/// `v` holds the byte strings `s`.
pub open spec fn holds_names(v: Seq<Vec<u8>>, s: Seq<Seq<u8>>) -> bool {
    v.len() == s.len() && forall|k: int| 0 <= k < v.len() ==> #[trigger] v[k]@ == s[k]
}

/// Whether `x` is one of the byte strings in `v`.
fn contains_name(v: &Vec<Vec<u8>>, x: &[u8]) -> (r: bool)
    ensures
        r == (exists|k: int| 0 <= k < v@.len() && #[trigger] v@[k]@ == x@),
{
    let mut k: usize = 0;
    while k < v.len()
        invariant
            k <= v@.len(),
            forall|j: int| 0 <= j < k ==> #[trigger] v@[j]@ != x@,
        decreases v@.len() - k,
    {
        if bytes_eq(v[k].as_slice(), x) {
            return true;
        }
        k = k + 1;
    }
    false
}

impl<F: Flash> Store<F> {
    /// Read a whole file. The content is verified against the stored CRC32.
    pub fn read_bytes(&mut self, file_name: &str) -> (r: Result<Vec<u8>, StoreError>)
        requires
            old(self).inv(),
        ensures
            final(self).same(old(self)),
            old(self).healthy() ==> res_view(r) == read_result(
                old(self).mem(),
                old(self).geo(),
                file_name.spec_bytes(),
            ),
            r matches Err(e) ==> e == StoreError::NotFound || e == StoreError::Corrupted || e == StoreError::Storage,
            old(self).fits() ==> (r matches Ok(v) ==> exists|f: FoundFile| #[trigger] found_ok(old(self).mem(), old(self).geo(), file_name.spec_bytes(), f)
                && file_read(old(self).mem(), old(self).geo(), f) == Ok::<Seq<u8>, StoreError>(v@)),
    {
        let f = self.newest_file(file_name.as_bytes())?;
        self.read_file(f)
    }

    /// Read a file as UTF-8 text.
    pub fn read(&mut self, file_name: &str) -> (r: Result<String, StoreError>)
        requires
            old(self).inv(),
        ensures
            final(self).same(old(self)),
            old(self).healthy() ==> match read_result(
                old(self).mem(),
                old(self).geo(),
                file_name.spec_bytes(),
            ) {
                Ok(bytes) => if valid_utf8(bytes) {
                    r matches Ok(s) && s@ == decode_utf8(bytes)
                } else {
                    r == Err::<String, StoreError>(StoreError::NotUtf8)
                },
                Err(e) => r == Err::<String, StoreError>(e),
            },
            r matches Err(e) ==> e == StoreError::NotFound || e == StoreError::Corrupted || e == StoreError::Storage || e == StoreError::NotUtf8,
            old(self).fits() ==> (r matches Ok(s) ==> exists|f: FoundFile| #[trigger] found_ok(old(self).mem(), old(self).geo(), file_name.spec_bytes(), f)
                && (file_read(old(self).mem(), old(self).geo(), f) matches Ok(b) && valid_utf8(b) && s@ == decode_utf8(b))),
    {
        let bytes = self.read_bytes(file_name)?;
        match string_from_utf8(bytes) {
            Some(s) => Ok(s),
            None => Err(StoreError::NotUtf8),
        }
    }

    /// Size of a file in bytes (reads only the header cluster).
    pub fn file_size(&mut self, file_name: &str) -> (r: Result<usize, StoreError>)
        requires
            old(self).inv(),
        ensures
            final(self).same(old(self)),
            old(self).healthy() ==> r == (match newest_of(
                copies(old(self).mem(), old(self).geo(), file_name.spec_bytes()),
            ) {
                Some(f) => Ok(f.header.data_len),
                None => Err(StoreError::NotFound),
            }),
            r matches Err(e) ==> e == StoreError::NotFound,
            old(self).fits() ==> (r matches Ok(n) ==> exists|f: FoundFile| #[trigger] found_ok(old(self).mem(), old(self).geo(), file_name.spec_bytes(), f)
                && f.header.data_len == n),
    {
        Ok(self.newest_file(file_name.as_bytes())?.header.data_len)
    }

    /// Whether a file with exactly this name exists (`"/data"` names no file even when
    /// `"/data/foo.txt"` exists).
    pub fn file_exists(&mut self, file_name: &str) -> (r: bool)
        requires
            old(self).inv(),
        ensures
            final(self).same(old(self)),
            old(self).healthy() ==> r == (copies(
                old(self).mem(),
                old(self).geo(),
                file_name.spec_bytes(),
            ).len() > 0),
    {
        self.find_files(file_name.as_bytes()).len() > 0
    }

    /// The distinct names of all headers, in cluster order.
    fn file_names(&mut self) -> (r: Vec<Vec<u8>>)
        requires
            old(self).inv(),
        ensures
            final(self).same(old(self)),
            old(self).healthy() ==> holds_names(r@, names_upto(old(self).mem(), old(self).geo(), old(self).geo().n as nat)),
            forall|k: int| 0 <= k < r@.len() ==> valid_utf8(#[trigger] r@[k]@),
            r@.len() <= old(self).geo().n,
    {
        let mut result: Vec<Vec<u8>> = Vec::new();
        let n = self.cluster_max_quantity;
        let ghost g = self.geo();
        let ghost mem = self.mem();
        let mut i: u32 = 0;
        while i < n
            invariant
                self.same(old(self)),
                old(self).inv(),
                n == self.cluster_max_quantity,
                g == self.geo(),
                mem == self.mem(),
                i <= n,
                old(self).healthy() ==> holds_names(result@, names_upto(mem, g, i as nat)),
                forall|k: int| 0 <= k < result@.len() ==> valid_utf8(#[trigger] result@[k]@),
                result@.len() <= i,
            decreases n - i,
        {
            proof {
                self.lemma_healthy_frame(old(self));
            }
            let w = self.read_first_word(i);
            let skip = match w {
                Ok(w) => w != MAGIC,
                Err(_) => true,
            };
            if !skip {
                if let Ok(buf) = self.read_cluster(i) {
                    if let Some(header) = parse_header(buf.as_slice(), self.flash_size) {
                        let name_end = crate::format::HEADER_FIXED + header.name_len;
                        let name = slice_range(buf.as_slice(), crate::format::HEADER_FIXED, name_end);
                        if !contains_name(&result, name) {
                            let ghost before = result@;
                            result.push(vstd::slice::slice_to_vec(name));
                            proof {
                                if old(self).healthy() {
                                    let prev = names_upto(mem, g, i as nat);
                                    assert(!prev.contains(name@)) by {
                                        if prev.contains(name@) {
                                            let k = choose|k: int| 0 <= k < prev.len() && prev[k] == name@;
                                            assert(before[k]@ == name@);
                                        }
                                    }
                                }
                            }
                        } else {
                            proof {
                                if old(self).healthy() {
                                    let prev = names_upto(mem, g, i as nat);
                                    let k = choose|k: int| 0 <= k < result@.len() && #[trigger] result@[k]@ == name@;
                                    assert(prev[k] == name@);
                                    assert(prev.contains(name@));
                                }
                            }
                        }
                    }
                }
            }
            i = i + 1;
        }
        result
    }

    /// List all stored file names.
    pub fn files(&mut self) -> (r: Vec<String>)
        requires
            old(self).inv(),
        ensures
            final(self).same(old(self)),
            old(self).healthy() ==> ({
                let names = names_upto(old(self).mem(), old(self).geo(), old(self).geo().n as nat);
                &&& r@.len() == names.len()
                &&& forall|k: int| 0 <= k < r@.len() ==> #[trigger] r@[k]@ == decode_utf8(names[k])
            }),
    {
        let names = self.file_names();
        to_strings(names)
    }
}

/// Turns byte strings that are valid UTF-8 into strings.
fn to_strings(names: Vec<Vec<u8>>) -> (r: Vec<String>)
    requires
        forall|k: int| 0 <= k < names@.len() ==> valid_utf8(#[trigger] names@[k]@),
    ensures
        r@.len() == names@.len(),
        forall|k: int| 0 <= k < r@.len() ==> #[trigger] r@[k]@ == decode_utf8(names@[k]@),
{
    let mut out: Vec<String> = Vec::new();
    let mut k: usize = 0;
    while k < names.len()
        invariant
            k <= names@.len(),
            out@.len() == k,
            forall|j: int| 0 <= j < names@.len() ==> valid_utf8(#[trigger] names@[j]@),
            forall|j: int| 0 <= j < k ==> #[trigger] out@[j]@ == decode_utf8(names@[j]@),
        decreases names@.len() - k,
    {
        let v = names[k].clone();
        assert(v@ == names@[k as int]@);
        match string_from_utf8(v) {
            Some(s) => out.push(s),
            None => {
                assert(false);
            },
        }
        k = k + 1;
    }
    out
}

impl<F: Flash> Store<F> {
    /// Direct access to the underlying device.
    pub fn storage_mut(&mut self) -> (r: &mut F)
        ensures
            *r == old(self).device(),
            final(self).device() == *final(r),
            final(self).geo() == old(self).geo(),
            final(self).v1_map() == old(self).v1_map(),
            final(self).cursor() == old(self).cursor(),
            final(self).inv() == old(self).inv(),
    {
        &mut self.flash
    }

    /// Consume the store and return the underlying device.
    pub fn into_storage(self) -> (r: F)
        ensures
            r == self.device(),
    {
        self.flash
    }

    /// Whether cluster `i` is taken.
    fn check_used(&mut self, cluster_number: u32) -> (r: bool)
        requires
            old(self).inv(),
            cluster_number < old(self).cluster_max_quantity,
        ensures
            final(self).same(old(self)),
            old(self).healthy() ==> r == used_at(old(self).mem(), old(self).geo(), old(self).v1_used@, cluster_number as int),
            old(self).fits() && !r ==> !used_at(old(self).mem(), old(self).geo(), old(self).v1_used@, cluster_number as int),
    {
        if (cluster_number as usize) < self.v1_used.len() && self.v1_used[cluster_number as usize] {
            return true;
        }
        match self.read_first_word(cluster_number) {
            Ok(w) => w == MAGIC || w == CONT_B,
            Err(_) => true,
        }
    }

    fn count_used_clusters(&mut self) -> (count: u32)
        requires
            old(self).inv(),
        ensures
            final(self).same(old(self)),
            count <= old(self).geo().n,
            old(self).healthy() ==> count == used_upto(old(self).mem(), old(self).geo(), old(self).v1_map(), old(self).geo().n as nat),
    {
        let mut count: u32 = 0;
        let n = self.cluster_max_quantity;
        let mut i: u32 = 0;
        while i < n
            invariant
                self.same(old(self)),
                old(self).inv(),
                n == self.cluster_max_quantity,
                i <= n,
                count <= i,
                old(self).healthy() ==> count == used_upto(old(self).mem(), old(self).geo(), old(self).v1_map(), i as nat),
            decreases n - i,
        {
            proof {
                self.lemma_healthy_frame(old(self));
            }
            if self.check_used(i) {
                count = count + 1;
            }
            i = i + 1;
        }
        count
    }

    /// Total managed space in bytes (a multiple of 4096).
    pub fn capacity(&self) -> (r: u32)
        requires
            self.inv(),
        ensures
            r == self.geo().n * 4096,
    {
        self.cluster_max_quantity * CLUSTER_SIZE as u32
    }

    /// Space taken by used clusters, in bytes.
    pub fn used_space(&mut self) -> (r: u32)
        requires
            old(self).inv(),
        ensures
            final(self).same(old(self)),
            r <= old(self).geo().n * 4096,
            old(self).healthy() ==> r == used_upto(old(self).mem(), old(self).geo(), old(self).v1_map(), old(self).geo().n as nat) * 4096,
    {
        let c = self.count_used_clusters();
        proof {
            assert(c * 4096 <= self.cluster_max_quantity * 4096) by (nonlinear_arith)
                requires
                    c <= self.cluster_max_quantity,
            ;
        }
        c * CLUSTER_SIZE as u32
    }

    /// Space still available for new clusters, in bytes.
    pub fn free_space(&mut self) -> (r: u32)
        requires
            old(self).inv(),
        ensures
            final(self).same(old(self)),
            old(self).healthy() ==> r == (old(self).geo().n - used_upto(old(self).mem(), old(self).geo(), old(self).v1_map(), old(self).geo().n as nat)) * 4096,
    {
        let cap = self.capacity();
        let used = self.used_space();
        proof {
            let u = used_upto(old(self).mem(), old(self).geo(), old(self).v1_map(), old(self).geo().n as nat);
            let n = old(self).geo().n as int;
            assert(n * 4096 - u * 4096 == (n - u) * 4096) by (nonlinear_arith);
        }
        cap - used
    }
}

/// Cluster `i` is free: not taken.
pub open spec fn free_at(mem: Seq<u8>, g: Geo, v1: Seq<bool>, i: int) -> bool {
    !used_at(mem, g, v1, i)
}

/// The first free cluster outside `taken` met when looking at `left` clusters from
/// `pos` on, wrapping around the partition.
pub open spec fn scan_free(mem: Seq<u8>, g: Geo, v1: Seq<bool>, taken: Seq<u32>, pos: nat, left: nat) -> Option<u32>
    decreases left,
{
    if left == 0 {
        None
    } else if free_at(mem, g, v1, pos as int) && !taken.contains(pos as u32) {
        Some(pos as u32)
    } else {
        scan_free(mem, g, v1, taken, ((pos + 1) % (g.n as nat)) as nat, (left - 1) as nat)
    }
}

/// The clusters the allocator hands out for `k` more clusters, from `cursor` on, after
/// `taken`: each is the next free cluster after the previous one, wrapping around.
pub open spec fn alloc_from(mem: Seq<u8>, g: Geo, v1: Seq<bool>, cursor: u32, taken: Seq<u32>, k: nat) -> Option<(Seq<u32>, u32)>
    decreases k,
{
    if k == 0 {
        Some((taken, cursor))
    } else {
        match scan_free(mem, g, v1, taken, (cursor % g.n) as nat, g.n as nat) {
            None => None,
            Some(c) => alloc_from(mem, g, v1, ((c + 1) % (g.n as int)) as u32, taken.push(c), (k - 1) as nat),
        }
    }
}

/// The part of `data` that the `i`-th cluster of a file holds.
pub open spec fn chunk_of(name_len: nat, data: Seq<u8>, i: nat) -> Seq<u8> {
    data.subrange(span_start(name_len, i), span_end(name_len, data.len(), i))
}

/// The chain mark of the `i`-th cluster of a file laid out on `cs`.
pub open spec fn next_addr(g: Geo, cs: Seq<u32>, i: int) -> Option<u32> {
    if i + 1 < cs.len() {
        Some((g.base + cs[i + 1] * 4096) as u32)
    } else {
        None
    }
}

/// The image of the `i`-th cluster of a file laid out on the clusters `cs`.
pub open spec fn file_image(g: Geo, name: Seq<u8>, data: Seq<u8>, generation: u32, cs: Seq<u32>, i: int) -> Seq<u8> {
    if i == 0 {
        first_image(name, data.len() as u32, generation, crate::crc::spec_crc32(data), chunk_of(name.len(), data, 0), next_addr(g, cs, 0))
    } else {
        cont_image((g.base + cs[i - 1] * 4096) as u32, chunk_of(name.len(), data, i as nat), next_addr(g, cs, i))
    }
}

/// A state that laying out a file on `cs` passes through, starting from `m0`: the
/// clusters outside `cs` are as in `m0`; while the header cluster `cs[0]` still holds
/// its old bytes, every other cluster of `cs` holds its old bytes or its new image;
/// once the header is written, all of `cs` holds the file.
pub open spec fn saving(m0: Seq<u8>, m: Seq<u8>, g: Geo, name: Seq<u8>, data: Seq<u8>, generation: u32, cs: Seq<u32>) -> bool {
    &&& m.len() == m0.len()
    &&& forall|c: int| 0 <= c < g.n && !cs.contains(c as u32) ==> #[trigger] cl(m, g, c) == cl(m0, g, c)
    &&& ({
        ||| {
            &&& cl(m, g, cs[0] as int) == cl(m0, g, cs[0] as int)
            &&& forall|k: int| 1 <= k < cs.len() ==> #[trigger] cl(m, g, cs[k] as int) == cl(m0, g, cs[k] as int)
                || cl(m, g, cs[k] as int) == file_image(g, name, data, generation, cs, k)
        }
        ||| forall|k: int| 0 <= k < cs.len() ==> #[trigger] cl(m, g, cs[k] as int) == file_image(g, name, data, generation, cs, k)
    })
}

/// In `m`, the clusters `cs[j..]` hold their images of the file and the others of `cs`
/// their bytes of `m0`.
pub open spec fn written_from(m0: Seq<u8>, m: Seq<u8>, g: Geo, name: Seq<u8>, data: Seq<u8>, generation: u32, cs: Seq<u32>, j: int) -> bool {
    forall|k: int| 0 <= k < cs.len() ==> #[trigger] cl(m, g, cs[k] as int) == (if k >= j {
        file_image(g, name, data, generation, cs, k)
    } else {
        cl(m0, g, cs[k] as int)
    })
}

/// The header written for a file.
pub open spec fn file_header(name: Seq<u8>, data: Seq<u8>, generation: u32) -> ParsedHeader {
    ParsedHeader {
        name_len: name.len() as usize,
        data_len: data.len() as usize,
        generation,
        data_crc: crate::crc::spec_crc32(data),
    }
}

/// Distinct cluster indices inside the partition.
pub open spec fn good_clusters(g: Geo, cs: Seq<u32>) -> bool {
    &&& cs.no_duplicates()
    &&& forall|k: int| 0 <= k < cs.len() ==> #[trigger] cs[k] < g.n
}

/// A file needs no more clusters than the partition has, so its data fits the partition size.
pub proof fn lemma_need_fits(name_len: nat, data_len: nat, n: nat, size: nat)
    requires
        name_len <= MAX_NAME_LEN,
        spec_need(name_len, data_len) <= n,
        n == size / 4096,
    ensures
        data_len <= size,
{
    let q = spec_need(name_len, data_len);
    lemma_spans(name_len, data_len, (q - 1) as nat);
    if q >= 2 {
        assert(span_start(name_len, (q - 1) as nat) + 4080 <= n * 4096) by (nonlinear_arith)
            requires
                span_start(name_len, (q - 1) as nat) == spec_cap0(name_len) + (q - 2) * 4080,
                q <= n,
                spec_cap0(name_len) <= 4060,
        ;
    }
    assert(n * 4096 <= size) by (nonlinear_arith)
        requires
            n == size / 4096,
    ;
}

/// A file laid out by `file_image` on clusters `cs` reads back as its name, header and data.
#[verifier::spinoff_prover]
#[verifier::rlimit(50)]
pub proof fn lemma_saved_file(mem: Seq<u8>, g: Geo, name: Seq<u8>, data: Seq<u8>, generation: u32, cs: Seq<u32>)
    requires
        name.len() <= MAX_NAME_LEN,
        vstd::utf8::valid_utf8(name),
        data.len() <= g.size,
        g.base + g.n * 4096 <= 0x1_0000_0000,
        g.base + g.n * 4096 <= mem.len(),
        cs.len() == spec_need(name.len(), data.len()),
        good_clusters(g, cs),
        forall|k: int| 0 <= k < cs.len() ==> cl(mem, g, #[trigger] cs[k] as int) == file_image(g, name, data, generation, cs, k),
    ensures
        ({
            let f = FoundFile { first_cluster: cs[0], header: file_header(name, data, generation) };
            &&& header_at(mem, g, cs[0] as int) == Some(f.header)
            &&& name_at(mem, g, cs[0] as int) == name
            &&& chain(mem, g, cs[0], cs.len()) == Some(cs)
            &&& chain_good(mem, g, f)
            &&& file_data(mem, g, f) == data
            &&& file_read(mem, g, f) == Ok::<Seq<u8>, StoreError>(data)
            &&& forall|k: int| 1 <= k < cs.len() ==> word0(mem, g, #[trigger] cs[k] as int) == CONT_B
        }),
{
    let l = name.len();
    let d = data.len();
    let q = cs.len();
    let h = file_header(name, data, generation);
    let f = FoundFile { first_cluster: cs[0], header: h };
    lemma_spans(l, d, 0);
    lemma_first_image(name, d as u32, generation, crate::crc::spec_crc32(data), chunk_of(l, data, 0), next_addr(g, cs, 0), g.size);
    assert(header_at(mem, g, cs[0] as int) == Some(h));
    assert(need_of(h) == q);
    assert forall|k: int| 1 <= k < q implies word0(mem, g, #[trigger] cs[k] as int) == CONT_B by {
        lemma_saved_cluster(mem, g, name, data, generation, cs, k);
    }
    lemma_saved_cluster(mem, g, name, data, generation, cs, q - 1);
    assert forall|j: int| 0 <= j < cs.len() - 1 implies next_of(mem, g, #[trigger] cs[j] as int) == ChainNext::Next(cs[j + 1]) by {
        lemma_saved_cluster(mem, g, name, data, generation, cs, j);
    }
    assert forall|j: int| 0 <= j < cs.len() implies slice_of(mem, g, h, #[trigger] cs[j], j as nat) == chunk_of(l, data, j as nat) by {
        lemma_saved_cluster(mem, g, name, data, generation, cs, j);
    }
    lemma_chain_of(mem, g, cs, q);
    assert(cs.take(q as int) =~= cs);
    assert(chain(mem, g, cs[0], q) == Some(cs));
    assert(chain_good(mem, g, f));
    lemma_data_of(mem, g, h, cs, data, q);
    assert(data.take(span_end(l, d, (q - 1) as nat)) =~= data) by {
        lemma_spans(l, d, (q - 1) as nat);
    }
    assert(file_data(mem, g, f) == data);
}

/// One cluster of a file laid out by `file_image`.
pub(crate) proof fn lemma_saved_cluster(mem: Seq<u8>, g: Geo, name: Seq<u8>, data: Seq<u8>, generation: u32, cs: Seq<u32>, k: int)
    requires
        name.len() <= MAX_NAME_LEN,
        data.len() <= g.size,
        g.base + g.n * 4096 <= 0x1_0000_0000,
        g.base + g.n * 4096 <= mem.len(),
        cs.len() == spec_need(name.len(), data.len()),
        good_clusters(g, cs),
        vstd::utf8::valid_utf8(name),
        0 <= k < cs.len(),
        cl(mem, g, cs[k] as int) == file_image(g, name, data, generation, cs, k),
    ensures
        next_of(mem, g, cs[k] as int) == (if k + 1 < cs.len() {
            ChainNext::Next(cs[k + 1])
        } else {
            ChainNext::End
        }),
        k >= 1 ==> word0(mem, g, cs[k] as int) == CONT_B,
        slice_of(mem, g, file_header(name, data, generation), cs[k], k as nat) == chunk_of(name.len(), data, k as nat),
{
    let l = name.len();
    let d = data.len();
    lemma_spans(l, d, k as nat);
    if k + 1 < cs.len() {
        lemma_addr_to_index(g.base, g.n, cs[k + 1]);
    }
    lemma_tail_image(next_addr(g, cs, k), g.base, g.n);
    if k == 0 {
        let img = first_image(name, d as u32, generation, crate::crc::spec_crc32(data), chunk_of(l, data, 0), next_addr(g, cs, 0));
        assert(img.len() == 4096) by {
            lemma_first_image(name, d as u32, generation, crate::crc::spec_crc32(data), chunk_of(l, data, 0), next_addr(g, cs, 0), g.size);
        }
        assert(img.subrange(28 + l as int, 28 + l + chunk_of(l, data, 0).len() as int) == chunk_of(l, data, 0)) by {
            lemma_first_image(name, d as u32, generation, crate::crc::spec_crc32(data), chunk_of(l, data, 0), next_addr(g, cs, 0), g.size);
        }
        assert(img.subrange(4088, 4096) == crate::format::tail_image(next_addr(g, cs, 0))) by {
            lemma_first_image(name, d as u32, generation, crate::crc::spec_crc32(data), chunk_of(l, data, 0), next_addr(g, cs, 0), g.size);
        }
    } else {
        lemma_cont_image((g.base + cs[k - 1] * 4096) as u32, chunk_of(l, data, k as nat), next_addr(g, cs, k));
    }
}

/// Clusters whose marks link them in order form the chain from the first one.
proof fn lemma_chain_of(mem: Seq<u8>, g: Geo, cs: Seq<u32>, k: nat)
    requires
        1 <= k <= cs.len(),
        forall|j: int| 0 <= j < cs.len() - 1 ==> next_of(mem, g, #[trigger] cs[j] as int) == ChainNext::Next(cs[j + 1]),
    ensures
        chain(mem, g, cs[0], k) == Some(cs.take(k as int)),
    decreases k,
{
    if k == 1 {
        assert(cs.take(1) =~= seq![cs[0]]);
    } else {
        lemma_chain_of(mem, g, cs, (k - 1) as nat);
        assert(cs.take(k - 1).last() == cs[k - 2]);
        assert(cs.take(k - 1).push(cs[k - 1]) =~= cs.take(k as int));
    }
}

/// The data gathered from clusters holding consecutive chunks is the matching prefix of the data.
proof fn lemma_data_of(mem: Seq<u8>, g: Geo, h: ParsedHeader, cs: Seq<u32>, data: Seq<u8>, k: nat)
    requires
        k <= cs.len(),
        cs.len() == spec_need(h.name_len as nat, h.data_len as nat),
        h.name_len <= MAX_NAME_LEN,
        h.data_len == data.len(),
        forall|j: int| 0 <= j < cs.len() ==> slice_of(mem, g, h, #[trigger] cs[j], j as nat) == chunk_of(h.name_len as nat, data, j as nat),
    ensures
        k == 0 ==> data_upto(mem, g, h, cs.take(k as int), k) == Seq::<u8>::empty(),
        k > 0 ==> data_upto(mem, g, h, cs, k) == data.take(span_end(h.name_len as nat, data.len(), (k - 1) as nat)),
    decreases k,
{
    let l = h.name_len as nat;
    let d = data.len();
    if k == 0 {
    } else {
        lemma_spans(l, d, (k - 1) as nat);
        assert(slice_of(mem, g, h, cs[k - 1], (k - 1) as nat) == chunk_of(l, data, (k - 1) as nat));
        if k == 1 {
            assert(data_upto(mem, g, h, cs, 0) == Seq::<u8>::empty());
            assert(data_upto(mem, g, h, cs, 1) =~= data.take(span_end(l, d, 0)));
        } else {
            lemma_spans(l, d, (k - 2) as nat);
            lemma_data_of(mem, g, h, cs, data, (k - 1) as nat);
            assert(data_upto(mem, g, h, cs, k) =~= data.take(span_end(l, d, (k - 1) as nat)));
        }
    }
}

/// Whether `x` is in `v`.
fn contains_u32(v: &Vec<u32>, x: u32) -> (r: bool)
    ensures
        r == v@.contains(x),
{
    let mut k: usize = 0;
    while k < v.len()
        invariant
            k <= v@.len(),
            forall|j: int| 0 <= j < k ==> v@[j] != x,
        decreases v@.len() - k,
    {
        if v[k] == x {
            assert(v@[k as int] == x);
            return true;
        }
        k = k + 1;
    }
    false
}

impl<F: Flash> Store<F> {
    /// The first free cluster outside `taken`, looking from `start` on and wrapping around.
    fn find_free_cluster_excluding(&mut self, start: u32, taken: &Vec<u32>) -> (r: Option<u32>)
        requires
            old(self).inv(),
        ensures
            final(self).same(old(self)),
            old(self).healthy() ==> r == scan_free(old(self).mem(), old(self).geo(), old(self).v1_map(), taken@, (start % old(self).geo().n) as nat, old(self).geo().n as nat),
            r matches Some(c) ==> c < old(self).geo().n && !taken@.contains(c) && (old(self).fits() ==> free_at(old(self).mem(), old(self).geo(), old(self).v1_map(), c as int)),
    {
        let max = self.cluster_max_quantity;
        let mut pos = start % max;
        let mut step: u32 = 0;
        while step < max
            invariant
                self.same(old(self)),
                old(self).inv(),
                max == self.cluster_max_quantity,
                step <= max,
                pos < max,
                old(self).healthy() ==> scan_free(old(self).mem(), old(self).geo(), old(self).v1_map(), taken@, (start % max) as nat, max as nat)
                    == scan_free(old(self).mem(), old(self).geo(), old(self).v1_map(), taken@, pos as nat, (max - step) as nat),
            decreases max - step,
        {
            proof {
                self.lemma_healthy_frame(old(self));
            }
            if !contains_u32(taken, pos) && !self.check_used(pos) {
                return Some(pos);
            }
            pos = (pos + 1) % max;
            step = step + 1;
        }
        None
    }

    /// Hands out `quantity` free clusters, each the next free one after the previous,
    /// starting at the cursor, so that writes rotate over the partition.
    fn allocate_clusters(&mut self, quantity: u32) -> (r: Option<Vec<u32>>)
        requires
            old(self).inv(),
        ensures
            final(self).inv(),
            final(self).keeps_layout(old(self)),
            final(self).mem() == old(self).mem(),
            final(self).history() == old(self).history(),
            r is None ==> final(self).cursor() == old(self).cursor(),
            r matches Some(cs) ==> cs@.len() == quantity && good_clusters(old(self).geo(), cs@) && (old(self).fits() ==> forall|k: int|
                0 <= k < cs@.len() ==> free_at(old(self).mem(), old(self).geo(), old(self).v1_map(), #[trigger] cs@[k] as int)),
            old(self).healthy() ==> match alloc_from(old(self).mem(), old(self).geo(), old(self).v1_map(), old(self).cursor(), Seq::empty(), quantity as nat) {
                Some((cs, c)) => r matches Some(v) && v@ == cs && final(self).cursor() == c,
                None => r is None,
            },
    {
        let mut clusters: Vec<u32> = Vec::new();
        let mut cursor = self.write_cursor;
        let mut k: u32 = 0;
        while k < quantity
            invariant
                self.same(old(self)),
                old(self).inv(),
                k <= quantity,
                cursor < self.cluster_max_quantity,
                clusters@.len() == k,
                good_clusters(old(self).geo(), clusters@),
                old(self).fits() ==> forall|j: int| 0 <= j < clusters@.len() ==> free_at(old(self).mem(), old(self).geo(), old(self).v1_map(), #[trigger] clusters@[j] as int),
                old(self).healthy() ==> alloc_from(old(self).mem(), old(self).geo(), old(self).v1_map(), old(self).cursor(), Seq::empty(), quantity as nat)
                    == alloc_from(old(self).mem(), old(self).geo(), old(self).v1_map(), cursor, clusters@, (quantity - k) as nat),
            decreases quantity - k,
        {
            proof {
                self.lemma_healthy_frame(old(self));
            }
            let c = match self.find_free_cluster_excluding(cursor, &clusters) {
                Some(c) => c,
                None => {
                    return None;
                },
            };
            cursor = (c + 1) % self.cluster_max_quantity;
            let ghost before = clusters@;
            clusters.push(c);
            proof {
                assert forall|a: int, b: int| 0 <= a < b < clusters@.len() implies clusters@[a] != clusters@[b] by {
                    if b == clusters@.len() - 1 {
                        assert(before.contains(clusters@[a]));
                    } else {
                        assert(before[a] != before[b]);
                    }
                }
            }
            k = k + 1;
        }
        self.write_cursor = cursor;
        Some(clusters)
    }

    /// Writes a file laid out on `clusters`, the continuation clusters from the last one
    /// back and the header cluster last.
    fn save_file(&mut self, file_name: &[u8], file_data: &[u8], generation: u32, clusters: &Vec<u32>) -> (r: Result<(), StoreError>)
        requires
            old(self).inv(),
            file_name@.len() <= MAX_NAME_LEN,
            file_data@.len() <= u32::MAX,
            clusters@.len() == spec_need(file_name@.len(), file_data@.len()),
            good_clusters(old(self).geo(), clusters@),
        ensures
            final(self).inv(),
            final(self).frame(old(self)),
            r matches Err(e) ==> e == StoreError::Storage,
            old(self).healthy() ==> r is Ok,
            r is Ok && old(self).fits() ==> ({
                let g = old(self).geo();
                &&& forall|k: int| 0 <= k < clusters@.len() ==> cl(final(self).mem(), g, #[trigger] clusters@[k] as int)
                    == file_image(g, file_name@, file_data@, generation, clusters@, k)
                &&& forall|i: int| 0 <= i < g.n && !clusters@.contains(i as u32) ==> #[trigger] cl(final(self).mem(), g, i) == cl(old(self).mem(), g, i)
            }),
            old(self).history().is_prefix_of(final(self).history()),
            old(self).healthy() ==> forall|t: int| old(self).history().len() <= t < final(self).history().len() ==> saving(
                old(self).mem(),
                #[trigger] final(self).history()[t],
                old(self).geo(),
                file_name@,
                file_data@,
                generation,
                clusters@,
            ),
            old(self).healthy() ==> final(self).history().len() == old(self).history().len() + clusters@.len(),
            r is Ok ==> final(self).history().len() == old(self).history().len() + clusters@.len(),
            r is Err ==> old(self).history().len() < final(self).history().len() <= old(self).history().len() + clusters@.len(),
            old(self).fits() ==> forall|t: int| 0 <= t < final(self).history().len() - old(self).history().len() - (if r is Ok { 0int } else { 1int })
                ==> {
                &&& written_from(
                    old(self).mem(),
                    #[trigger] final(self).history()[old(self).history().len() + t],
                    old(self).geo(),
                    file_name@,
                    file_data@,
                    generation,
                    clusters@,
                    clusters@.len() - 1 - t,
                )
                &&& forall|c: int| 0 <= c < old(self).geo().n && !clusters@.contains(c as u32) ==> #[trigger] cl(final(self).history()[old(self).history().len() + t], old(self).geo(), c) == cl(old(self).mem(), old(self).geo(), c)
            },
            old(self).healthy() ==> forall|t: int| 0 <= t < clusters@.len() ==> written_from(
                old(self).mem(),
                #[trigger] final(self).history()[old(self).history().len() + t],
                old(self).geo(),
                file_name@,
                file_data@,
                generation,
                clusters@,
                clusters@.len() - 1 - t,
            ),
    {
        let data_crc = crate::crc::crc32(file_data);
        let n = clusters.len();
        let name_len = file_name.len();
        let data_len = file_data.len();
        let ghost g = self.geo();
        let mut i = n;
        while i > 0
            invariant
                self.inv(),
                self.frame(old(self)),
                g == self.geo(),
                old(self).inv(),
                n == clusters@.len(),
                name_len == file_name@.len(),
                data_len == file_data@.len(),
                name_len <= MAX_NAME_LEN,
                data_len <= u32::MAX,
                n == spec_need(name_len as nat, data_len as nat),
                good_clusters(g, clusters@),
                data_crc == crate::crc::spec_crc32(file_data@),
                i <= n,
                old(self).healthy() ==> self.healthy(),
                self.fits() ==> forall|k: int| i <= k < n ==> cl(self.mem(), g, #[trigger] clusters@[k] as int)
                    == file_image(g, file_name@, file_data@, generation, clusters@, k),
                self.fits() ==> forall|j: int| 0 <= j < g.n && !clusters@.subrange(i as int, n as int).contains(j as u32) ==> #[trigger] cl(self.mem(), g, j) == cl(old(self).mem(), g, j),
                old(self).history().is_prefix_of(self.history()),
                self.fits() ==> forall|t: int| old(self).history().len() <= t < self.history().len() ==> saving(
                    old(self).mem(),
                    #[trigger] self.history()[t],
                    g,
                    file_name@,
                    file_data@,
                    generation,
                    clusters@,
                ),
                self.history().len() == old(self).history().len() + (n - i),
                old(self).fits() ==> forall|t: int| 0 <= t < n - i ==> {
                    &&& written_from(
                        old(self).mem(),
                        #[trigger] self.history()[old(self).history().len() + t],
                        g,
                        file_name@,
                        file_data@,
                        generation,
                        clusters@,
                        n - 1 - t,
                    )
                    &&& forall|c: int| 0 <= c < g.n && !clusters@.contains(c as u32) ==> #[trigger] cl(self.history()[old(self).history().len() + t], g, c) == cl(old(self).mem(), g, c)
                },
            decreases i,
        {
            i = i - 1;
            let (span_s, span_e) = crate::format::data_span(name_len, data_len, i);
            proof {
                lemma_spans(name_len as nat, data_len as nat, i as nat);
            }
            let chunk = slice_range(file_data, span_s, span_e);
            let next = if i + 1 < n {
                Some(self.cluster_addr(clusters[i + 1]))
            } else {
                None
            };
            let img = if i == 0 {
                first_cluster_image(file_name, data_len as u32, generation, data_crc, chunk, next)
            } else {
                let prev_addr = self.cluster_addr(clusters[i - 1]);
                cont_cluster_image(prev_addr, chunk, next)
            };
            assert(img@ == file_image(g, file_name@, file_data@, generation, clusters@, i as int));
            let ghost before = self.mem();
            let ghost hist_before = self.history();
            let w = self.write_cluster(clusters[i], img.as_slice());
            if w.is_err() {
                proof {
                    assert forall|t: int| 0 <= t < n - 1 - i implies #[trigger] self.history()[old(self).history().len() + t] == hist_before[old(self).history().len() + t] by {}
                }
                return Err(StoreError::Storage);
            }
            proof {
                if self.fits() {
                    lemma_cl_update(before, g, clusters@[i as int] as int, img@);
                    assert forall|k: int| i <= k < n implies cl(self.mem(), g, #[trigger] clusters@[k] as int)
                        == file_image(g, file_name@, file_data@, generation, clusters@, k) by {
                        if k != i {
                            assert(clusters@[k] != clusters@[i as int]);
                        }
                    }
                    assert forall|j: int| 0 <= j < g.n && !clusters@.subrange(i as int, n as int).contains(j as u32) implies #[trigger] cl(self.mem(), g, j) == cl(old(self).mem(), g, j) by {
                        assert(clusters@.subrange(i as int, n as int)[0] == clusters@[i as int]);
                        let tail = clusters@.subrange(i + 1, n as int);
                        if tail.contains(j as u32) {
                            let t = choose|t: int| 0 <= t < tail.len() && #[trigger] tail[t] == j as u32;
                            assert(clusters@.subrange(i as int, n as int)[t + 1] == j as u32);
                        }
                    }
                    let m = self.mem();
                    assert(saving(old(self).mem(), m, g, file_name@, file_data@, generation, clusters@)) by {
                        assert forall|c: int| 0 <= c < g.n && !clusters@.contains(c as u32) implies #[trigger] cl(m, g, c) == cl(old(self).mem(), g, c) by {
                            if clusters@.subrange(i as int, n as int).contains(c as u32) {
                                let t = choose|t: int| 0 <= t < n - i && #[trigger] clusters@.subrange(i as int, n as int)[t] == c as u32;
                                assert(clusters@[i + t] == c as u32);
                            }
                        }
                        if i > 0 {
                            assert(!clusters@.subrange(i as int, n as int).contains(clusters@[0])) by {
                                if clusters@.subrange(i as int, n as int).contains(clusters@[0]) {
                                    let t = choose|t: int| 0 <= t < n - i && #[trigger] clusters@.subrange(i as int, n as int)[t] == clusters@[0];
                                    assert(clusters@[i + t] == clusters@[0]);
                                }
                            }
                            assert forall|k: int| 1 <= k < clusters@.len() implies #[trigger] cl(m, g, clusters@[k] as int) == cl(old(self).mem(), g, clusters@[k] as int)
                                || cl(m, g, clusters@[k] as int) == file_image(g, file_name@, file_data@, generation, clusters@, k) by {
                                if k < i {
                                    if clusters@.subrange(i as int, n as int).contains(clusters@[k]) {
                                        let t = choose|t: int| 0 <= t < n - i && #[trigger] clusters@.subrange(i as int, n as int)[t] == clusters@[k];
                                        assert(clusters@[i + t] == clusters@[k]);
                                    }
                                }
                            }
                        }
                    }
                }
            }
            assert(self.history().last() == self.mem());
            proof {
                if old(self).fits() {
                    let m = self.mem();
                    assert forall|k: int| 0 <= k < clusters@.len() implies #[trigger] cl(m, g, clusters@[k] as int) == (if k >= i {
                        file_image(g, file_name@, file_data@, generation, clusters@, k)
                    } else {
                        cl(old(self).mem(), g, clusters@[k] as int)
                    }) by {
                        if k < i {
                            if clusters@.subrange(i as int, n as int).contains(clusters@[k]) {
                                let t = choose|t: int| 0 <= t < n - i && #[trigger] clusters@.subrange(i as int, n as int)[t] == clusters@[k];
                                assert(clusters@[i + t] == clusters@[k]);
                            }
                        }
                    }
                    assert(written_from(old(self).mem(), self.history()[old(self).history().len() + (n - 1 - i)], g, file_name@, file_data@, generation, clusters@, i as int));
                }
            }
        }
        proof {
            if self.fits() {
                assert(clusters@.subrange(0, n as int) =~= clusters@);
            }
        }
        Ok(())
    }
}

// ============================ well-formed partitions ============================

/// The header of cluster `i` as a found file.
pub open spec fn found_at(mem: Seq<u8>, g: Geo, i: int) -> FoundFile {
    FoundFile { first_cluster: i as u32, header: header_at(mem, g, i).unwrap() }
}

/// The clusters of the file whose header is in cluster `i`.
pub open spec fn file_chain(mem: Seq<u8>, g: Geo, i: int) -> Seq<u32> {
    chain(mem, g, i as u32, need_of(header_at(mem, g, i).unwrap())).unwrap()
}

/// A partition as this store writes it: every header starts a whole chain of distinct
/// clusters, no two headers share a name, and no two files share a cluster. The data of
/// a file may still fail its CRC; such a file reads as `Corrupted`.
#[verifier::opaque]
pub open spec fn wf(mem: Seq<u8>, g: Geo) -> bool {
    &&& forall|i: int|
        0 <= i < g.n && #[trigger] header_at(mem, g, i) is Some ==> {
            &&& chain_good(mem, g, found_at(mem, g, i))
            &&& file_chain(mem, g, i).no_duplicates()
        }
    &&& forall|i: int, j: int|
        0 <= i < g.n && 0 <= j < g.n && i != j && #[trigger] header_at(mem, g, i) is Some
            && #[trigger] header_at(mem, g, j) is Some ==> {
            &&& name_at(mem, g, i) != name_at(mem, g, j)
            &&& file_chain(mem, g, i).disjoint(file_chain(mem, g, j))
        }
}

/// Consecutive clusters of a chain are linked by their marks.
pub proof fn lemma_chain_links(mem: Seq<u8>, g: Geo, c0: u32, m: nat, k: int)
    requires
        chain(mem, g, c0, m) is Some,
        0 <= k,
        k + 1 < m,
    ensures
        next_of(mem, g, chain(mem, g, c0, m).unwrap()[k] as int) == ChainNext::Next(chain(mem, g, c0, m).unwrap()[k + 1]),
{
    lemma_chain_prefix(mem, g, c0, m, (k + 2) as nat);
    lemma_chain_prefix(mem, g, c0, m, (k + 1) as nat);
    let cs = chain(mem, g, c0, m).unwrap();
    let a = chain(mem, g, c0, (k + 1) as nat).unwrap();
    let b = chain(mem, g, c0, (k + 2) as nat).unwrap();
    assert(a.last() == cs[k]);
    assert(b[k + 1] == cs[k + 1]);
    match next_of(mem, g, a.last() as int) {
        ChainNext::Next(x) => {
            assert(b == a.push(x));
        },
        _ => {
            assert(chain(mem, g, c0, (k + 2) as nat) is None);
        },
    }
}

/// The elements of a chain are clusters of the partition and the first is `c0`.
pub proof fn lemma_chain_in_range(mem: Seq<u8>, g: Geo, c0: u32, m: nat)
    requires
        chain(mem, g, c0, m) is Some,
        c0 < g.n,
        m >= 1,
    ensures
        chain(mem, g, c0, m).unwrap().len() == m,
        chain(mem, g, c0, m).unwrap()[0] == c0,
        forall|k: int| 0 <= k < m ==> #[trigger] chain(mem, g, c0, m).unwrap()[k] < g.n,
    decreases m,
{
    lemma_chain_prefix(mem, g, c0, m, m);
    if m > 1 {
        lemma_chain_in_range(mem, g, c0, (m - 1) as nat);
        let a = chain(mem, g, c0, (m - 1) as nat).unwrap();
        match next_of(mem, g, a.last() as int) {
            ChainNext::Next(x) => {
                assert(chain(mem, g, c0, m).unwrap() == a.push(x));
            },
            _ => {},
        }
    }
}

/// Distinct cluster indices of a partition of `n` clusters are at most `n`.
pub proof fn lemma_distinct_bound(s: Seq<u32>, n: u32)
    requires
        s.no_duplicates(),
        forall|k: int| 0 <= k < s.len() ==> #[trigger] s[k] < n,
    ensures
        s.len() <= n,
{
    let t = s.map_values(|x: u32| x as int);
    assert(t.no_duplicates()) by {
        assert forall|a: int, b: int| 0 <= a < t.len() && 0 <= b < t.len() && a != b implies t[a] != t[b] by {
            assert(s[a] != s[b]);
        }
    }
    t.unique_seq_to_set();
    vstd::set_lib::lemma_int_range(0, n as int);
    assert(t.to_set().subset_of(vstd::set_lib::set_int_range(0, n as int))) by {
        assert forall|x: int| t.to_set().contains(x) implies vstd::set_lib::set_int_range(0, n as int).contains(x) by {
            let k = choose|k: int| 0 <= k < t.len() && t[k] == x;
            assert(s[k] < n);
        }
    }
    vstd::set_lib::lemma_len_subset(t.to_set(), vstd::set_lib::set_int_range(0, n as int));
}

/// A chain reads the same on a partition whose clusters along it did not change.
pub proof fn lemma_chain_frame(m1: Seq<u8>, m2: Seq<u8>, g: Geo, c0: u32, k: nat)
    requires
        chain(m1, g, c0, k) is Some,
        forall|j: int| 0 <= j < k ==> cl(m2, g, #[trigger] chain(m1, g, c0, k).unwrap()[j] as int) == cl(m1, g, chain(m1, g, c0, k).unwrap()[j] as int),
    ensures
        chain(m2, g, c0, k) == chain(m1, g, c0, k),
    decreases k,
{
    if k > 1 {
        lemma_chain_prefix(m1, g, c0, k, (k - 1) as nat);
        let a = chain(m1, g, c0, (k - 1) as nat).unwrap();
        let cs = chain(m1, g, c0, k).unwrap();
        assert forall|j: int| 0 <= j < k - 1 implies cl(m2, g, #[trigger] a[j] as int) == cl(m1, g, a[j] as int) by {
            assert(a[j] == cs[j]);
        }
        lemma_chain_frame(m1, m2, g, c0, (k - 1) as nat);
        assert(a.last() == cs[k - 2]);
        assert(cl(m2, g, a.last() as int) == cl(m1, g, a.last() as int));
    }
}

/// The data gathered along clusters that did not change is the same.
pub proof fn lemma_data_frame(m1: Seq<u8>, m2: Seq<u8>, g: Geo, h: ParsedHeader, cs: Seq<u32>, k: nat)
    requires
        k <= cs.len(),
        forall|j: int| 0 <= j < k ==> cl(m2, g, #[trigger] cs[j] as int) == cl(m1, g, cs[j] as int),
    ensures
        data_upto(m2, g, h, cs, k) == data_upto(m1, g, h, cs, k),
    decreases k,
{
    if k > 0 {
        lemma_data_frame(m1, m2, g, h, cs, (k - 1) as nat);
        assert(cl(m2, g, cs[k - 1] as int) == cl(m1, g, cs[k - 1] as int));
    }
}

/// A file reads the same when its header cluster and the clusters of its chain did not change.
pub proof fn lemma_file_frame(m1: Seq<u8>, m2: Seq<u8>, g: Geo, f: FoundFile)
    requires
        chain(m1, g, f.first_cluster, need_of(f.header)) is Some,
        forall|j: int| 0 <= j < need_of(f.header) ==> cl(m2, g, #[trigger] chain(m1, g, f.first_cluster, need_of(f.header)).unwrap()[j] as int)
            == cl(m1, g, chain(m1, g, f.first_cluster, need_of(f.header)).unwrap()[j] as int),
    ensures
        chain(m2, g, f.first_cluster, need_of(f.header)) == chain(m1, g, f.first_cluster, need_of(f.header)),
        chain_good(m2, g, f) == chain_good(m1, g, f),
        file_data(m2, g, f) == file_data(m1, g, f),
        file_read(m2, g, f) == file_read(m1, g, f),
{
    let q = need_of(f.header);
    let cs = chain(m1, g, f.first_cluster, q).unwrap();
    lemma_chain_prefix(m1, g, f.first_cluster, q, q);
    lemma_chain_frame(m1, m2, g, f.first_cluster, q);
    lemma_data_frame(m1, m2, g, f.header, cs, q);
    if q >= 1 {
        lemma_chain_prefix(m1, g, f.first_cluster, q, q);
        assert(cl(m2, g, cs[q - 1] as int) == cl(m1, g, cs[q - 1] as int));
        assert forall|j: int| 1 <= j < q implies word0(m2, g, cs[j] as int) == word0(m1, g, cs[j] as int) by {
            assert(cl(m2, g, cs[j] as int) == cl(m1, g, cs[j] as int));
        }
    }
}

/// The copies of a name are the same on two partitions whose clusters agree on being
/// copies of it, with the same headers.
pub proof fn lemma_copies_frame(m1: Seq<u8>, m2: Seq<u8>, g: Geo, name: Seq<u8>, k: nat)
    requires
        forall|i: int| 0 <= i < k ==> #[trigger] is_copy(m1, g, i, name) == is_copy(m2, g, i, name),
        forall|i: int| 0 <= i < k && is_copy(m1, g, i, name) ==> #[trigger] header_at(m1, g, i) == header_at(m2, g, i),
    ensures
        found_upto(m1, g, name, k) == found_upto(m2, g, name, k),
    decreases k,
{
    if k > 0 {
        lemma_copies_frame(m1, m2, g, name, (k - 1) as nat);
        assert(is_copy(m1, g, k - 1, name) == is_copy(m2, g, k - 1, name));
    }
}

/// A cluster of a file's chain is its header cluster or a continuation cluster.
pub proof fn lemma_chain_member(mem: Seq<u8>, g: Geo, h: int, c: u32)
    requires
        0 <= h < g.n,
        header_at(mem, g, h) is Some,
        chain_good(mem, g, found_at(mem, g, h)),
        file_chain(mem, g, h).contains(c),
    ensures
        c < g.n,
        c == h || word0(mem, g, c as int) == CONT_B,
        header_at(mem, g, c as int) is Some ==> c == h,
{
    let f = found_at(mem, g, h);
    let q = need_of(f.header);
    let cs = file_chain(mem, g, h);
    lemma_chain_in_range(mem, g, h as u32, q);
    let k = choose|k: int| 0 <= k < cs.len() && cs[k] == c;
    assert(cs[k] < g.n);
    if k >= 1 {
        assert(word0(mem, g, cs[k] as int) == CONT_B);
    }
}

/// The clusters of the chains of the files `fs`, the first `k` of them.
pub open spec fn in_chains(mem: Seq<u8>, g: Geo, fs: Seq<FoundFile>, k: int, c: u32) -> bool {
    exists|j: int| 0 <= j < k && #[trigger] file_chain(mem, g, fs[j].first_cluster as int).contains(c)
}

/// A state that erasing the chains of the files `fs` of `m0` passes through, starting
/// from `m1`: each cluster holds its bytes of `m1`, or is erased when it belongs to
/// one of those chains.
pub open spec fn dropping(m1: Seq<u8>, m: Seq<u8>, g: Geo, m0: Seq<u8>, fs: Seq<FoundFile>) -> bool {
    &&& m.len() == m1.len()
    &&& forall|c: int| 0 <= c < g.n ==> #[trigger] cl(m, g, c) == cl(m1, g, c) || (in_chains(m0, g, fs, fs.len() as int, c as u32)
        && cl(m, g, c) == crate::format::ff(4096))
}

/// Erasing the chain of the `k`-th of the files `fs` from a state where the chains of the
/// earlier ones are erased passes through states that erase only clusters of those chains.
proof fn lemma_dropping_step(m0: Seq<u8>, m1: Seq<u8>, cur: Seq<u8>, m: Seq<u8>, g: Geo, fs: Seq<FoundFile>, keep: Seq<u32>, k: int)
    requires
        0 <= k < fs.len(),
        forall|c: int| 0 <= c < g.n && !keep.contains(c as u32) ==> #[trigger] cl(cur, g, c) == (if in_chains(m0, g, fs, k, c as u32) {
            crate::format::ff(4096)
        } else {
            cl(m0, g, c)
        }),
        forall|c: int| 0 <= c < g.n && keep.contains(c as u32) ==> #[trigger] cl(cur, g, c) == cl(m1, g, c),
        forall|c: int| 0 <= c < g.n && !keep.contains(c as u32) ==> #[trigger] cl(m1, g, c) == cl(m0, g, c),
        erasing(cur, m, g, file_chain(m0, g, fs[k].first_cluster as int)),
        cur.len() == m1.len(),
    ensures
        dropping(m1, m, g, m0, fs),
{
    let ch = file_chain(m0, g, fs[k].first_cluster as int);
    assert forall|c: int| 0 <= c < g.n implies #[trigger] cl(m, g, c) == cl(m1, g, c) || (in_chains(m0, g, fs, fs.len() as int, c as u32)
        && cl(m, g, c) == crate::format::ff(4096)) by {
        if ch.contains(c as u32) {
            assert(file_chain(m0, g, fs[k].first_cluster as int).contains(c as u32));
        }
        if !keep.contains(c as u32) && in_chains(m0, g, fs, k, c as u32) {
            let j2 = choose|j2: int| 0 <= j2 < k && #[trigger] file_chain(m0, g, fs[j2].first_cluster as int).contains(c as u32);
            assert(file_chain(m0, g, fs[j2].first_cluster as int).contains(c as u32));
        }
    }
}

/// Headers in the list `copies(mem, g, name)` are the copies of `name`.
pub proof fn lemma_copies_members(mem: Seq<u8>, g: Geo, name: Seq<u8>, k: nat)
    requires
        k <= g.n,
    ensures
        forall|j: int| 0 <= j < found_upto(mem, g, name, k).len() ==> {
            let f = #[trigger] found_upto(mem, g, name, k)[j];
            &&& f.first_cluster < k
            &&& is_copy(mem, g, f.first_cluster as int, name)
            &&& f == found_at(mem, g, f.first_cluster as int)
        },
        forall|i: int| 0 <= i < k && is_copy(mem, g, i, name) ==> exists|j: int| 0 <= j < found_upto(mem, g, name, k).len() && #[trigger] found_upto(mem, g, name, k)[j].first_cluster == i,
        forall|a: int, b: int| 0 <= a < b < found_upto(mem, g, name, k).len() ==> found_upto(mem, g, name, k)[a].first_cluster < found_upto(mem, g, name, k)[b].first_cluster,
    decreases k,
{
    if k > 0 {
        lemma_copies_members(mem, g, name, (k - 1) as nat);
        let prev = found_upto(mem, g, name, (k - 1) as nat);
        let cur = found_upto(mem, g, name, k);
        if is_copy(mem, g, k - 1, name) {
            assert(cur == prev.push(found_at(mem, g, k - 1)));
            assert forall|i: int| 0 <= i < k && is_copy(mem, g, i, name) implies exists|j: int| 0 <= j < cur.len() && #[trigger] cur[j].first_cluster == i by {
                if i == k - 1 {
                    assert(cur[prev.len() as int].first_cluster == i);
                } else {
                    let j = choose|j: int| 0 <= j < prev.len() && #[trigger] prev[j].first_cluster == i;
                    assert(cur[j].first_cluster == i);
                }
            }
        }
    }
}

/// A state that erasing the clusters `cs` one by one passes through, starting from
/// `m0`: each cluster holds its old bytes, or is erased when it is one of `cs`.
pub open spec fn erasing(m0: Seq<u8>, m: Seq<u8>, g: Geo, cs: Seq<u32>) -> bool {
    &&& m.len() == m0.len()
    &&& forall|c: int| 0 <= c < g.n ==> #[trigger] cl(m, g, c) == cl(m0, g, c) || (cs.contains(c as u32) && cl(m, g, c) == crate::format::ff(4096))
}

impl<F: Flash> Store<F> {
    /// Collects the clusters of a chain, as far as it goes (for deletion).
    fn collect_chain(&mut self, first_cluster: u32) -> (r: Vec<u32>)
        requires
            old(self).inv(),
            first_cluster < old(self).geo().n,
        ensures
            final(self).same(old(self)),
            good_clusters(old(self).geo(), r@),
            r@.len() >= 1,
            r@[0] == first_cluster,
            old(self).healthy() && header_at(old(self).mem(), old(self).geo(), first_cluster as int) is Some
                && chain_good(old(self).mem(), old(self).geo(), found_at(old(self).mem(), old(self).geo(), first_cluster as int))
                && file_chain(old(self).mem(), old(self).geo(), first_cluster as int).no_duplicates()
                ==> r@ == file_chain(old(self).mem(), old(self).geo(), first_cluster as int),
    {
        let ghost mem = self.mem();
        let ghost g = self.geo();
        let ghost good = self.healthy() && header_at(mem, g, first_cluster as int) is Some
            && chain_good(mem, g, found_at(mem, g, first_cluster as int))
            && file_chain(mem, g, first_cluster as int).no_duplicates();
        let ghost cq = file_chain(mem, g, first_cluster as int);
        let ghost q = if good { need_of(header_at(mem, g, first_cluster as int).unwrap()) } else { 0 };
        proof {
            if good {
                assert(found_at(mem, g, first_cluster as int).first_cluster == first_cluster);
                assert(chain(mem, g, first_cluster, q) is Some);
                lemma_chain_in_range(mem, g, first_cluster, q);
                lemma_distinct_bound(cq, g.n);
            }
        }
        let mut links: Vec<u32> = Vec::new();
        links.push(first_cluster);
        let mut cur = first_cluster;
        let max = self.cluster_max_quantity;
        assert(links@ =~= seq![first_cluster]);
        loop
            invariant_except_break
                good ==> links@.len() < q || next_of(mem, g, cur as int) == ChainNext::End,
            invariant
                self.same(old(self)),
                old(self).inv(),
                mem == self.mem(),
                g == self.geo(),
                max == g.n,
                links@.len() >= 1,
                links@.len() <= max,
                links@[0] == first_cluster,
                links@.last() == cur,
                good_clusters(g, links@),
                good ==> q <= g.n && cq.len() == q && links@.len() <= q && links@ == cq.take(links@.len() as int),
                good ==> forall|k: int| 0 <= k < q ==> #[trigger] cq[k] < g.n,
                good ==> cq.no_duplicates(),
                good ==> next_of(mem, g, cq[q - 1] as int) == ChainNext::End,
                good ==> old(self).healthy(),
                good ==> chain(mem, g, first_cluster, q) == Some(cq),
            ensures
                good ==> links@.len() == q,
            decreases max - links@.len(),
        {
            proof {
                self.lemma_healthy_frame(old(self));
            }
            let tail = match self.read_tail(cur) {
                Ok(t) => t,
                Err(_) => {
                    break ;
                },
            };
            let nx = match chain_next(tail.as_slice(), self.flash_addr, self.cluster_max_quantity) {
                ChainNext::Next(nx) => nx,
                _ => {
                    proof {
                        if good && links@.len() < q {
                            lemma_chain_links(mem, g, first_cluster, q, links@.len() - 1);
                        }
                    }
                    break ;
                },
            };
            if contains_u32(&links, nx) || (links.len() as u32) >= max {
                proof {
                    if good && links@.len() < q {
                        lemma_chain_links(mem, g, first_cluster, q, links@.len() - 1);
                        assert(nx == cq[links@.len() as int]);
                        let t = choose|t: int| 0 <= t < links@.len() && links@[t] == nx;
                        assert(cq[t] == nx);
                    }
                }
                break ;
            }
            proof {
                if good {
                    if links@.len() == q {
                        assert(cq[q - 1] == cur);
                    }
                    lemma_chain_links(mem, g, first_cluster, q, links@.len() - 1);
                }
            }
            let ghost before = links@;
            links.push(nx);
            cur = nx;
            proof {
                assert forall|a: int, b: int| 0 <= a < b < links@.len() implies links@[a] != links@[b] by {
                    if b == links@.len() - 1 {
                        assert(before.contains(links@[a]));
                    } else {
                        assert(before[a] != before[b]);
                    }
                }
                if good {
                    assert(links@ =~= cq.take(links@.len() as int));
                }
                lemma_distinct_bound(links@, max);
            }
        }
        proof {
            if good {
                assert(links@ =~= cq);
            }
        }
        links
    }

    /// Erases the clusters of the file whose header is in `first_cluster`, header first.
    fn delete_found(&mut self, first_cluster: u32) -> (r: Result<(), StoreError>)
        requires
            old(self).inv(),
            first_cluster < old(self).geo().n,
        ensures
            final(self).inv(),
            final(self).frame(old(self)),
            r matches Err(e) ==> e == StoreError::Storage,
            old(self).healthy() ==> r is Ok,
            old(self).healthy() && header_at(old(self).mem(), old(self).geo(), first_cluster as int) is Some
                && chain_good(old(self).mem(), old(self).geo(), found_at(old(self).mem(), old(self).geo(), first_cluster as int))
                && file_chain(old(self).mem(), old(self).geo(), first_cluster as int).no_duplicates()
                ==> forall|c: int| 0 <= c < old(self).geo().n ==> #[trigger] cl(final(self).mem(), old(self).geo(), c) == (
                    if file_chain(old(self).mem(), old(self).geo(), first_cluster as int).contains(c as u32) {
                        crate::format::ff(4096)
                    } else {
                        cl(old(self).mem(), old(self).geo(), c)
                    }),
            old(self).history().is_prefix_of(final(self).history()),
            old(self).healthy() && header_at(old(self).mem(), old(self).geo(), first_cluster as int) is Some
                && chain_good(old(self).mem(), old(self).geo(), found_at(old(self).mem(), old(self).geo(), first_cluster as int))
                && file_chain(old(self).mem(), old(self).geo(), first_cluster as int).no_duplicates()
                ==> forall|t: int| old(self).history().len() <= t < final(self).history().len() ==> erasing(
                    old(self).mem(),
                    #[trigger] final(self).history()[t],
                    old(self).geo(),
                    file_chain(old(self).mem(), old(self).geo(), first_cluster as int),
                ),
            old(self).healthy() ==> cl(final(self).mem(), old(self).geo(), first_cluster as int) == crate::format::ff(4096),
            old(self).healthy() ==> forall|c: int| 0 <= c < old(self).geo().n ==> #[trigger] cl(final(self).mem(), old(self).geo(), c) == cl(
                old(self).mem(),
                old(self).geo(),
                c,
            ) || cl(final(self).mem(), old(self).geo(), c) == crate::format::ff(4096),
    {
        let chain = self.collect_chain(first_cluster);
        let ghost g = self.geo();
        let ghost m0 = self.mem();
        let mut k: usize = 0;
        while k < chain.len()
            invariant
                self.inv(),
                self.frame(old(self)),
                g == self.geo(),
                old(self).inv(),
                good_clusters(g, chain@),
                k <= chain@.len(),
                old(self).healthy() ==> self.healthy(),
                self.fits() ==> forall|c: int| 0 <= c < g.n ==> #[trigger] cl(self.mem(), g, c) == (
                    if chain@.take(k as int).contains(c as u32) {
                        crate::format::ff(4096)
                    } else {
                        cl(m0, g, c)
                    }),
                old(self).history().is_prefix_of(self.history()),
                m0.len() == self.mem().len(),
                self.fits() ==> forall|t: int| old(self).history().len() <= t < self.history().len() ==> erasing(m0, #[trigger] self.history()[t], g, chain@),
            decreases chain@.len() - k,
        {
            let ghost before = self.mem();
            self.erase_cluster(chain[k])?;
            proof {
                if self.fits() {
                    lemma_cl_update(before, g, chain@[k as int] as int, crate::format::ff(4096));
                    assert forall|c: int| 0 <= c < g.n implies #[trigger] cl(self.mem(), g, c) == (
                        if chain@.take(k + 1).contains(c as u32) {
                            crate::format::ff(4096)
                        } else {
                            cl(m0, g, c)
                        }) by {
                        let t1 = chain@.take(k + 1);
                        let t0 = chain@.take(k as int);
                        assert(t1 =~= t0.push(chain@[k as int]));
                        if c as u32 != chain@[k as int] {
                            if t1.contains(c as u32) {
                                let t = choose|t: int| 0 <= t < t1.len() && t1[t] == c as u32;
                                assert(t < k);
                                assert(t0[t] == c as u32);
                            }
                            if t0.contains(c as u32) {
                                let t = choose|t: int| 0 <= t < t0.len() && t0[t] == c as u32;
                                assert(t1[t] == c as u32);
                            }
                            assert(cl(self.mem(), g, c) == cl(before, g, c));
                        } else {
                            assert(t1[k as int] == c as u32);
                        }
                    }
                    let m = self.mem();
                    assert(erasing(m0, m, g, chain@)) by {
                        assert forall|c: int| 0 <= c < g.n implies #[trigger] cl(m, g, c) == cl(m0, g, c) || (chain@.contains(c as u32) && cl(m, g, c) == crate::format::ff(4096)) by {
                            if chain@.take(k + 1).contains(c as u32) {
                                let t = choose|t: int| 0 <= t < k + 1 && #[trigger] chain@.take(k + 1)[t] == c as u32;
                                assert(chain@[t] == c as u32);
                            }
                        }
                    }
                }
            }
            assert(self.history().last() == self.mem());
            k = k + 1;
        }
        proof {
            assert(chain@.take(k as int) =~= chain@);
            assert(chain@[0] == first_cluster);
            assert(chain@.contains(first_cluster));
        }
        Ok(())
    }
}

/// An erased cluster holds no header and no continuation.
pub proof fn lemma_ff_cluster(mem: Seq<u8>, g: Geo, c: int)
    requires
        cl(mem, g, c) == crate::format::ff(4096),
    ensures
        header_at(mem, g, c) is None,
        word0(mem, g, c) != CONT_B,
        word0(mem, g, c) != MAGIC,
{
    let x = cl(mem, g, c);
    assert(x.subrange(0, 4) =~= crate::format::ff(4));
    crate::format::lemma_word_ff(x, 0);
}

/// When exactly cluster `c0` holds a copy of `name`, the copies are that one header.
pub proof fn lemma_copies_single(mem: Seq<u8>, g: Geo, name: Seq<u8>, c0: int, k: nat)
    requires
        0 <= c0 < k,
        forall|i: int| 0 <= i < k ==> (#[trigger] is_copy(mem, g, i, name) <==> i == c0),
    ensures
        found_upto(mem, g, name, k) == seq![found_at(mem, g, c0)],
    decreases k,
{
    if k - 1 == c0 {
        lemma_copies_none(mem, g, name, (k - 1) as nat);
        assert(is_copy(mem, g, k - 1, name));
        assert(found_upto(mem, g, name, k) =~= seq![found_at(mem, g, c0)]);
    } else {
        assert(!is_copy(mem, g, k - 1, name));
        lemma_copies_single(mem, g, name, c0, (k - 1) as nat);
    }
}

/// When no cluster holds a copy of `name`, there are no copies.
pub proof fn lemma_copies_none(mem: Seq<u8>, g: Geo, name: Seq<u8>, k: nat)
    requires
        forall|i: int| 0 <= i < k ==> !#[trigger] is_copy(mem, g, i, name),
    ensures
        found_upto(mem, g, name, k) == Seq::<FoundFile>::empty(),
    decreases k,
{
    if k > 0 {
        assert(!is_copy(mem, g, k - 1, name));
        lemma_copies_none(mem, g, name, (k - 1) as nat);
    }
}

/// A header cluster starts with `MAGIC`.
pub proof fn lemma_header_magic(mem: Seq<u8>, g: Geo, i: int)
    requires
        header_at(mem, g, i) is Some,
    ensures
        word0(mem, g, i) == MAGIC,
{
}

/// What a partition looks like after the copies of `name` lost their clusters and,
/// when `cs` is not empty, a new file `name` was laid out on `cs`.
#[verifier::opaque]
pub open spec fn updated(
    m0: Seq<u8>,
    m2: Seq<u8>,
    g: Geo,
    name: Seq<u8>,
    data: Seq<u8>,
    generation: u32,
    cs: Seq<u32>,
) -> bool {
    let fs = copies(m0, g, name);
    &&& forall|k: int| 0 <= k < cs.len() ==> cl(m2, g, #[trigger] cs[k] as int) == file_image(g, name, data, generation, cs, k)
    &&& forall|c: int| 0 <= c < g.n && !cs.contains(c as u32) ==> #[trigger] cl(m2, g, c) == (if in_chains(m0, g, fs, fs.len() as int, c as u32) {
        crate::format::ff(4096)
    } else {
        cl(m0, g, c)
    })
}

/// Clusters of files other than `name` are untouched by an update.
proof fn lemma_other_chain_kept(
    m0: Seq<u8>,
    m2: Seq<u8>,
    g: Geo,
    v1: Seq<bool>,
    name: Seq<u8>,
    data: Seq<u8>,
    generation: u32,
    cs: Seq<u32>,
    i: int,
)
    requires
        wf(m0, g),
        g.base + g.n * 4096 <= m0.len(),
        updated(m0, m2, g, name, data, generation, cs),
        good_clusters(g, cs),
        forall|k: int| 0 <= k < cs.len() ==> free_at(m0, g, v1, #[trigger] cs[k] as int),
        0 <= i < g.n,
        header_at(m0, g, i) is Some,
        name_at(m0, g, i) != name,
    ensures
        forall|k: int| 0 <= k < need_of(header_at(m0, g, i).unwrap()) ==> #[trigger] cl(m2, g, file_chain(m0, g, i)[k] as int) == cl(m0, g, file_chain(m0, g, i)[k] as int),
        cl(m2, g, i) == cl(m0, g, i),
{
    reveal(wf);
    reveal(updated);
    let fs = copies(m0, g, name);
    let ch = file_chain(m0, g, i);
    let q = need_of(header_at(m0, g, i).unwrap());
    lemma_copies_members(m0, g, name, g.n as nat);
    assert(found_at(m0, g, i).first_cluster == i as u32);
    lemma_chain_in_range(m0, g, i as u32, q);
    assert forall|k: int| 0 <= k < q implies #[trigger] cl(m2, g, ch[k] as int) == cl(m0, g, ch[k] as int) by {
        let c = ch[k];
        assert(ch.contains(c));
        lemma_chain_member(m0, g, i, c);
        if cs.contains(c) {
            let t = choose|t: int| 0 <= t < cs.len() && cs[t] == c;
            assert(free_at(m0, g, v1, cs[t] as int));
            if c as int == i {
                lemma_header_magic(m0, g, i);
            }
        }
        if in_chains(m0, g, fs, fs.len() as int, c) {
            let j = choose|j: int| 0 <= j < fs.len() && #[trigger] file_chain(m0, g, fs[j].first_cluster as int).contains(c);
            let h = fs[j].first_cluster as int;
            assert(is_copy(m0, g, h, name));
            assert(h != i);
            assert(file_chain(m0, g, i).disjoint(file_chain(m0, g, h)));
        }
    }
    assert(ch[0] == i as u32);
}

/// The conditions under which an update lays out a new file: `cs` are free clusters,
/// as many as the file needs.
pub open spec fn new_file_ok(m0: Seq<u8>, g: Geo, v1: Seq<bool>, name: Seq<u8>, data: Seq<u8>, cs: Seq<u32>) -> bool {
    &&& good_clusters(g, cs)
    &&& forall|k: int| 0 <= k < cs.len() ==> free_at(m0, g, v1, #[trigger] cs[k] as int)
    &&& cs.len() > 0 ==> {
        &&& name.len() <= MAX_NAME_LEN
        &&& vstd::utf8::valid_utf8(name)
        &&& data.len() <= g.size
        &&& cs.len() == spec_need(name.len(), data.len())
    }
}

/// How a cluster of an updated partition reads.
proof fn lemma_update_cluster(
    m0: Seq<u8>,
    m2: Seq<u8>,
    g: Geo,
    v1: Seq<bool>,
    name: Seq<u8>,
    data: Seq<u8>,
    generation: u32,
    cs: Seq<u32>,
    i: int,
)
    requires
        wf(m0, g),
        g.base + g.n * 4096 <= 0x1_0000_0000,
        g.base + g.n * 4096 <= m0.len(),
        m2.len() == m0.len(),
        updated(m0, m2, g, name, data, generation, cs),
        new_file_ok(m0, g, v1, name, data, cs),
        0 <= i < g.n,
    ensures
        header_at(m2, g, i) is Some ==> (cs.len() > 0 && i == cs[0]) || (header_at(m0, g, i) is Some && name_at(m0, g, i) != name && cl(m2, g, i) == cl(m0, g, i)),
        header_at(m0, g, i) is Some && name_at(m0, g, i) != name ==> cl(m2, g, i) == cl(m0, g, i),
        cs.len() > 0 && i == cs[0] ==> header_at(m2, g, i) == Some(file_header(name, data, generation)) && name_at(m2, g, i) == name,
{
    reveal(wf);
    reveal(updated);
    let fs = copies(m0, g, name);
    lemma_copies_members(m0, g, name, g.n as nat);
    if cs.len() > 0 {
        lemma_saved_file(m2, g, name, data, generation, cs);
    }
    if header_at(m0, g, i) is Some && name_at(m0, g, i) != name {
        lemma_other_chain_kept(m0, m2, g, v1, name, data, generation, cs, i);
    }
    if cs.contains(i as u32) {
        let t = choose|t: int| 0 <= t < cs.len() && cs[t] == i as u32;
        if t >= 1 {
            assert(word0(m2, g, cs[t] as int) == CONT_B);
        }
    } else if in_chains(m0, g, fs, fs.len() as int, i as u32) {
        lemma_ff_cluster(m2, g, i);
    } else {
        if header_at(m0, g, i) is Some && name_at(m0, g, i) == name {
            assert(is_copy(m0, g, i, name));
            let j = choose|j: int| 0 <= j < fs.len() && #[trigger] fs[j].first_cluster == i;
            lemma_chain_in_range(m0, g, i as u32, need_of(header_at(m0, g, i).unwrap()));
            assert(found_at(m0, g, i).first_cluster == i as u32);
            assert(file_chain(m0, g, fs[j].first_cluster as int)[0] == i as u32);
            assert(file_chain(m0, g, fs[j].first_cluster as int).contains(i as u32));
        }
    }
}

/// The outcome of an update: the partition stays well formed, `name` reads as the new
/// file (or is gone), and every other name reads as before.
pub proof fn lemma_update_outcome(
    m0: Seq<u8>,
    m2: Seq<u8>,
    g: Geo,
    v1: Seq<bool>,
    name: Seq<u8>,
    data: Seq<u8>,
    generation: u32,
    cs: Seq<u32>,
)
    requires
        wf(m0, g),
        g.base + g.n * 4096 <= 0x1_0000_0000,
        g.base + g.n * 4096 <= m0.len(),
        m2.len() == m0.len(),
        updated(m0, m2, g, name, data, generation, cs),
        new_file_ok(m0, g, v1, name, data, cs),
    ensures
        wf(m2, g),
        cs.len() > 0 ==> read_result(m2, g, name) == Ok::<Seq<u8>, StoreError>(data),
        cs.len() > 0 ==> copies(m2, g, name) == seq![FoundFile { first_cluster: cs[0], header: file_header(name, data, generation) }],
        cs.len() == 0 ==> read_result(m2, g, name) == Err::<Seq<u8>, StoreError>(StoreError::NotFound),
        cs.len() == 0 ==> copies(m2, g, name) == Seq::<FoundFile>::empty(),
        forall|other: Seq<u8>| other != name ==> #[trigger] read_result(m2, g, other) == read_result(m0, g, other),
        forall|other: Seq<u8>| other != name ==> #[trigger] copies(m2, g, other) == copies(m0, g, other),
{
    lemma_update_name(m0, m2, g, v1, name, data, generation, cs);
    lemma_update_wf(m0, m2, g, v1, name, data, generation, cs);
    assert forall|other: Seq<u8>| other != name implies #[trigger] read_result(m2, g, other) == read_result(m0, g, other) by {
        lemma_update_other(m0, m2, g, v1, name, data, generation, cs, other);
    }
    assert forall|other: Seq<u8>| other != name implies #[trigger] copies(m2, g, other) == copies(m0, g, other) by {
        lemma_update_other(m0, m2, g, v1, name, data, generation, cs, other);
    }
}

/// After an update, `name` reads as the new file, or is gone.
proof fn lemma_update_name(
    m0: Seq<u8>,
    m2: Seq<u8>,
    g: Geo,
    v1: Seq<bool>,
    name: Seq<u8>,
    data: Seq<u8>,
    generation: u32,
    cs: Seq<u32>,
)
    requires
        wf(m0, g),
        g.base + g.n * 4096 <= 0x1_0000_0000,
        g.base + g.n * 4096 <= m0.len(),
        m2.len() == m0.len(),
        updated(m0, m2, g, name, data, generation, cs),
        new_file_ok(m0, g, v1, name, data, cs),
    ensures
        cs.len() > 0 ==> read_result(m2, g, name) == Ok::<Seq<u8>, StoreError>(data),
        cs.len() > 0 ==> copies(m2, g, name) == seq![FoundFile { first_cluster: cs[0], header: file_header(name, data, generation) }],
        cs.len() == 0 ==> read_result(m2, g, name) == Err::<Seq<u8>, StoreError>(StoreError::NotFound),
        cs.len() == 0 ==> copies(m2, g, name) == Seq::<FoundFile>::empty(),
{
    reveal(updated);
    assert forall|i: int| 0 <= i < g.n implies {
        &&& (header_at(m2, g, i) is Some ==> (cs.len() > 0 && i == cs[0]) || (header_at(m0, g, i) is Some && name_at(m0, g, i) != name && cl(m2, g, i) == cl(m0, g, i)))
        &&& (header_at(m0, g, i) is Some && name_at(m0, g, i) != name ==> cl(m2, g, i) == cl(m0, g, i))
        &&& (cs.len() > 0 && i == cs[0] ==> header_at(m2, g, i) == Some(file_header(name, data, generation)) && name_at(m2, g, i) == name)
    } by {
        lemma_update_cluster(m0, m2, g, v1, name, data, generation, cs, i);
    }
    if cs.len() > 0 {
        lemma_saved_file(m2, g, name, data, generation, cs);
    }
    assert forall|i: int| 0 <= i < g.n implies (#[trigger] is_copy(m2, g, i, name) <==> (cs.len() > 0 && i == cs[0])) by {
        if header_at(m2, g, i) is Some && !(cs.len() > 0 && i == cs[0]) {
            assert(cl(m2, g, i) == cl(m0, g, i));
        }
    }
    if cs.len() > 0 {
        lemma_copies_single(m2, g, name, cs[0] as int, g.n as nat);
        assert(found_at(m2, g, cs[0] as int) == FoundFile { first_cluster: cs[0], header: file_header(name, data, generation) });
        let one = seq![found_at(m2, g, cs[0] as int)];
        assert(one.drop_last() =~= Seq::<FoundFile>::empty());
        assert(newest_of(Seq::<FoundFile>::empty()) is None);
        assert(one.last() == found_at(m2, g, cs[0] as int));
        assert(newest_of(one) == Some(found_at(m2, g, cs[0] as int)));
    } else {
        lemma_copies_none(m2, g, name, g.n as nat);
    }
}

/// After an update, any other name reads as before.
proof fn lemma_update_other(
    m0: Seq<u8>,
    m2: Seq<u8>,
    g: Geo,
    v1: Seq<bool>,
    name: Seq<u8>,
    data: Seq<u8>,
    generation: u32,
    cs: Seq<u32>,
    other: Seq<u8>,
)
    requires
        wf(m0, g),
        g.base + g.n * 4096 <= 0x1_0000_0000,
        g.base + g.n * 4096 <= m0.len(),
        m2.len() == m0.len(),
        updated(m0, m2, g, name, data, generation, cs),
        new_file_ok(m0, g, v1, name, data, cs),
        other != name,
    ensures
        read_result(m2, g, other) == read_result(m0, g, other),
        copies(m2, g, other) == copies(m0, g, other),
{
    reveal(wf);
    assert forall|i: int| 0 <= i < g.n implies {
        &&& (header_at(m2, g, i) is Some ==> (cs.len() > 0 && i == cs[0]) || (header_at(m0, g, i) is Some && name_at(m0, g, i) != name && cl(m2, g, i) == cl(m0, g, i)))
        &&& (header_at(m0, g, i) is Some && name_at(m0, g, i) != name ==> cl(m2, g, i) == cl(m0, g, i))
        &&& (cs.len() > 0 && i == cs[0] ==> header_at(m2, g, i) == Some(file_header(name, data, generation)) && name_at(m2, g, i) == name)
    } by {
        lemma_update_cluster(m0, m2, g, v1, name, data, generation, cs, i);
    }
    assert forall|i: int| 0 <= i < g.n implies #[trigger] is_copy(m0, g, i, other) == is_copy(m2, g, i, other) by {
        if header_at(m0, g, i) is Some && name_at(m0, g, i) != name {
            assert(cl(m2, g, i) == cl(m0, g, i));
        }
    }
    assert forall|i: int| 0 <= i < g.n && is_copy(m0, g, i, other) implies #[trigger] header_at(m0, g, i) == header_at(m2, g, i) by {
        assert(cl(m2, g, i) == cl(m0, g, i));
    }
    lemma_copies_frame(m0, m2, g, other, g.n as nat);
    lemma_copies_members(m0, g, other, g.n as nat);
    match newest_of(copies(m0, g, other)) {
        None => {},
        Some(f) => {
            lemma_newest_in(copies(m0, g, other));
            let j = choose|j: int| 0 <= j < copies(m0, g, other).len() && copies(m0, g, other)[j] == f;
            let i = f.first_cluster as int;
            assert(is_copy(m0, g, i, other));
            lemma_other_chain_kept(m0, m2, g, v1, name, data, generation, cs, i);
            assert(found_at(m0, g, i) == f);
            lemma_file_frame(m0, m2, g, f);
        },
    }
}

/// After an update the partition is still well formed.
proof fn lemma_update_wf(
    m0: Seq<u8>,
    m2: Seq<u8>,
    g: Geo,
    v1: Seq<bool>,
    name: Seq<u8>,
    data: Seq<u8>,
    generation: u32,
    cs: Seq<u32>,
)
    requires
        wf(m0, g),
        g.base + g.n * 4096 <= 0x1_0000_0000,
        g.base + g.n * 4096 <= m0.len(),
        m2.len() == m0.len(),
        updated(m0, m2, g, name, data, generation, cs),
        new_file_ok(m0, g, v1, name, data, cs),
    ensures
        wf(m2, g),
{
    reveal(updated);
    reveal(wf);
    assert forall|i: int| 0 <= i < g.n implies {
        &&& (header_at(m2, g, i) is Some ==> (cs.len() > 0 && i == cs[0]) || (header_at(m0, g, i) is Some && name_at(m0, g, i) != name && cl(m2, g, i) == cl(m0, g, i)))
        &&& (header_at(m0, g, i) is Some && name_at(m0, g, i) != name ==> cl(m2, g, i) == cl(m0, g, i))
        &&& (cs.len() > 0 && i == cs[0] ==> header_at(m2, g, i) == Some(file_header(name, data, generation)) && name_at(m2, g, i) == name)
    } by {
        lemma_update_cluster(m0, m2, g, v1, name, data, generation, cs, i);
    }
    if cs.len() > 0 {
        lemma_saved_file(m2, g, name, data, generation, cs);
    }
    assert forall|i: int| 0 <= i < g.n && #[trigger] header_at(m2, g, i) is Some implies {
        &&& chain_good(m2, g, found_at(m2, g, i))
        &&& file_chain(m2, g, i).no_duplicates()
    } by {
        if cs.len() > 0 && i == cs[0] {
            assert(found_at(m2, g, i) == FoundFile { first_cluster: cs[0], header: file_header(name, data, generation) });
            assert(file_chain(m2, g, i) == cs);
        } else {
            lemma_other_chain_kept(m0, m2, g, v1, name, data, generation, cs, i);
            assert(found_at(m2, g, i) == found_at(m0, g, i));
            lemma_file_frame(m0, m2, g, found_at(m0, g, i));
        }
    }
    assert forall|i: int, j: int|
        0 <= i < g.n && 0 <= j < g.n && i != j && #[trigger] header_at(m2, g, i) is Some
            && #[trigger] header_at(m2, g, j) is Some implies {
            &&& name_at(m2, g, i) != name_at(m2, g, j)
            &&& file_chain(m2, g, i).disjoint(file_chain(m2, g, j))
        } by {
        lemma_update_pair(m0, m2, g, v1, name, data, generation, cs, i, j);
    }
}

/// Two headers of an updated partition have different names and disjoint chains.
proof fn lemma_update_pair(
    m0: Seq<u8>,
    m2: Seq<u8>,
    g: Geo,
    v1: Seq<bool>,
    name: Seq<u8>,
    data: Seq<u8>,
    generation: u32,
    cs: Seq<u32>,
    i: int,
    j: int,
)
    requires
        wf(m0, g),
        g.base + g.n * 4096 <= 0x1_0000_0000,
        g.base + g.n * 4096 <= m0.len(),
        m2.len() == m0.len(),
        updated(m0, m2, g, name, data, generation, cs),
        new_file_ok(m0, g, v1, name, data, cs),
        0 <= i < g.n,
        0 <= j < g.n,
        i != j,
        header_at(m2, g, i) is Some,
        header_at(m2, g, j) is Some,
    ensures
        name_at(m2, g, i) != name_at(m2, g, j),
        file_chain(m2, g, i).disjoint(file_chain(m2, g, j)),
{
    reveal(updated);
    reveal(wf);
    lemma_update_cluster(m0, m2, g, v1, name, data, generation, cs, i);
    lemma_update_cluster(m0, m2, g, v1, name, data, generation, cs, j);
    if cs.len() > 0 {
        lemma_saved_file(m2, g, name, data, generation, cs);
    }
    if cs.len() > 0 && (i == cs[0] || j == cs[0]) {
        let o = if i == cs[0] { j } else { i };
        lemma_other_chain_kept(m0, m2, g, v1, name, data, generation, cs, o);
        assert(found_at(m2, g, o) == found_at(m0, g, o));
        lemma_file_frame(m0, m2, g, found_at(m0, g, o));
        assert(file_chain(m2, g, o) == file_chain(m0, g, o));
        assert(file_chain(m2, g, cs[0] as int) == cs);
        let q = need_of(header_at(m0, g, o).unwrap());
        lemma_chain_in_range(m0, g, o as u32, q);
        assert(found_at(m0, g, o).first_cluster == o as u32);
        assert forall|a: int, b: int| 0 <= a < cs.len() && 0 <= b < file_chain(m0, g, o).len() implies cs[a] != file_chain(m0, g, o)[b] by {
            let c = file_chain(m0, g, o)[b];
            assert(file_chain(m0, g, o).contains(c));
            lemma_chain_member(m0, g, o, c);
            assert(free_at(m0, g, v1, cs[a] as int));
            if c as int == o {
                lemma_header_magic(m0, g, o);
            }
        }
    } else {
        lemma_other_chain_kept(m0, m2, g, v1, name, data, generation, cs, i);
        lemma_other_chain_kept(m0, m2, g, v1, name, data, generation, cs, j);
        assert(found_at(m2, g, i) == found_at(m0, g, i));
        assert(found_at(m2, g, j) == found_at(m0, g, j));
        lemma_file_frame(m0, m2, g, found_at(m0, g, i));
        lemma_file_frame(m0, m2, g, found_at(m0, g, j));
    }
}

/// The newest of a list is one of its elements.
pub proof fn lemma_newest_in(s: Seq<FoundFile>)
    ensures
        newest_of(s) matches Some(f) ==> exists|j: int| 0 <= j < s.len() && s[j] == f,
    decreases s.len(),
{
    if s.len() > 0 {
        lemma_newest_in(s.drop_last());
        if let Some(b) = newest_of(s.drop_last()) {
            let j = choose|j: int| 0 <= j < s.drop_last().len() && s.drop_last()[j] == b;
            assert(s[j] == b);
        }
        assert(s[s.len() - 1] == s.last());
    }
}

/// The generation a new copy of a file gets: one past the newest existing copy's
/// (wrapping), or 0 when there is none.
pub open spec fn next_generation(fs: Seq<FoundFile>) -> u32 {
    match newest_of(fs) {
        Some(f) => vstd::wrapping::u32_specs::wrapping_add(f.header.generation, 1),
        None => 0,
    }
}

/// The newest of the headers `found`.
fn newest_in(found: &Vec<FoundFile>) -> (r: Option<FoundFile>)
    ensures
        r == newest_of(found@),
{
    let mut best: Option<FoundFile> = None;
    let mut k: usize = 0;
    while k < found.len()
        invariant
            k <= found@.len(),
            best == newest_of(found@.take(k as int)),
        decreases found@.len() - k,
    {
        let f = found[k];
        assert(found@.take(k + 1).drop_last() =~= found@.take(k as int));
        best = match best {
            None => Some(f),
            Some(b) => {
                if gen_newer(f.header.generation, b.header.generation) {
                    Some(f)
                } else {
                    Some(b)
                }
            },
        };
        k = k + 1;
    }
    assert(found@.take(k as int) =~= found@);
    best
}

impl<F: Flash> Store<F> {
    /// Erases the chains of the headers `found`, one after the other.
    fn delete_copies(
        &mut self,
        found: &Vec<FoundFile>,
        Ghost(m0): Ghost<Seq<u8>>,
        Ghost(name): Ghost<Seq<u8>>,
        Ghost(keep): Ghost<Seq<u32>>,
    ) -> (r: Result<(), StoreError>)
        requires
            old(self).inv(),
            forall|k: int| 0 <= k < found@.len() ==> #[trigger] found@[k].first_cluster < old(self).geo().n,
        ensures
            final(self).inv(),
            final(self).frame(old(self)),
            r matches Err(e) ==> e == StoreError::Storage,
            old(self).healthy() ==> r is Ok,
            ({
                let g = old(self).geo();
                old(self).healthy() && wf(m0, g) && found@ == copies(m0, g, name)
                    && m0.len() == old(self).mem().len()
                    && (forall|c: int| 0 <= c < g.n && !keep.contains(c as u32) ==> #[trigger] cl(old(self).mem(), g, c) == cl(m0, g, c))
                    && (forall|k: int| 0 <= k < keep.len() ==> word0(m0, g, #[trigger] keep[k] as int) != MAGIC && word0(m0, g, keep[k] as int) != CONT_B)
                    ==> (forall|c: int| 0 <= c < g.n && !keep.contains(c as u32) ==> #[trigger] cl(final(self).mem(), g, c) == (if in_chains(m0, g, found@, found@.len() as int, c as u32) {
                        crate::format::ff(4096)
                    } else {
                        cl(m0, g, c)
                    }))
                    && (forall|c: int| 0 <= c < g.n && keep.contains(c as u32) ==> #[trigger] cl(final(self).mem(), g, c) == cl(old(self).mem(), g, c))
            }),
            old(self).healthy() ==> forall|k: int| 0 <= k < found@.len() ==> cl(final(self).mem(), old(self).geo(), (#[trigger] found@[k]).first_cluster as int)
                == crate::format::ff(4096),
            old(self).healthy() ==> forall|c: int| 0 <= c < old(self).geo().n ==> #[trigger] cl(final(self).mem(), old(self).geo(), c) == cl(
                old(self).mem(),
                old(self).geo(),
                c,
            ) || cl(final(self).mem(), old(self).geo(), c) == crate::format::ff(4096),
            old(self).history().is_prefix_of(final(self).history()),
            ({
                let g = old(self).geo();
                old(self).healthy() && wf(m0, g) && found@ == copies(m0, g, name)
                    && m0.len() == old(self).mem().len()
                    && (forall|c: int| 0 <= c < g.n && !keep.contains(c as u32) ==> #[trigger] cl(old(self).mem(), g, c) == cl(m0, g, c))
                    && (forall|k: int| 0 <= k < keep.len() ==> word0(m0, g, #[trigger] keep[k] as int) != MAGIC && word0(m0, g, keep[k] as int) != CONT_B)
                    ==> forall|t: int| old(self).history().len() <= t < final(self).history().len() ==> dropping(
                        old(self).mem(),
                        #[trigger] final(self).history()[t],
                        g,
                        m0,
                        found@,
                    )
            }),
    {
        let ghost g = self.geo();
        let ghost m1 = self.mem();
        let ghost good = self.healthy() && wf(m0, g) && found@ == copies(m0, g, name)
            && m0.len() == m1.len()
            && (forall|c: int| 0 <= c < g.n && !keep.contains(c as u32) ==> #[trigger] cl(m1, g, c) == cl(m0, g, c))
            && (forall|k: int| 0 <= k < keep.len() ==> word0(m0, g, #[trigger] keep[k] as int) != MAGIC && word0(m0, g, keep[k] as int) != CONT_B);
        proof {
            if good {
                lemma_copies_members(m0, g, name, g.n as nat);
            }
        }
        let mut k: usize = 0;
        while k < found.len()
            invariant
                self.inv(),
                self.frame(old(self)),
                g == self.geo(),
                old(self).inv(),
                k <= found@.len(),
                forall|j: int| 0 <= j < found@.len() ==> #[trigger] found@[j].first_cluster < g.n,
                old(self).healthy() ==> self.healthy(),
                good ==> old(self).healthy() && wf(m0, g) && found@ == copies(m0, g, name) && m0.len() == self.mem().len(),
                good ==> forall|j: int| 0 <= j < found@.len() ==> {
                    let f = #[trigger] found@[j];
                    &&& is_copy(m0, g, f.first_cluster as int, name)
                    &&& f == found_at(m0, g, f.first_cluster as int)
                },
                good ==> forall|a: int, b: int| 0 <= a < b < found@.len() ==> found@[a].first_cluster < found@[b].first_cluster,
                good ==> forall|t: int| 0 <= t < keep.len() ==> word0(m0, g, #[trigger] keep[t] as int) != MAGIC && word0(m0, g, keep[t] as int) != CONT_B,
                good ==> forall|c: int| 0 <= c < g.n && !keep.contains(c as u32) ==> #[trigger] cl(self.mem(), g, c) == (if in_chains(m0, g, found@, k as int, c as u32) {
                    crate::format::ff(4096)
                } else {
                    cl(m0, g, c)
                }),
                good ==> forall|c: int| 0 <= c < g.n && keep.contains(c as u32) ==> #[trigger] cl(self.mem(), g, c) == cl(m1, g, c),
                good ==> forall|c: int| 0 <= c < g.n && !keep.contains(c as u32) ==> #[trigger] cl(m1, g, c) == cl(m0, g, c),
                m1.len() == self.mem().len(),
                old(self).healthy() ==> forall|j: int| 0 <= j < k ==> cl(self.mem(), g, (#[trigger] found@[j]).first_cluster as int) == crate::format::ff(4096),
                old(self).healthy() ==> forall|c: int| 0 <= c < g.n ==> #[trigger] cl(self.mem(), g, c) == cl(m1, g, c) || cl(self.mem(), g, c) == crate::format::ff(4096),
                old(self).history().is_prefix_of(self.history()),
                good ==> forall|t: int| old(self).history().len() <= t < self.history().len() ==> dropping(m1, #[trigger] self.history()[t], g, m0, found@),
            decreases found@.len() - k,
        {
            let ghost cur = self.mem();
            let ghost hist = self.history();
            let ghost h = found@[k as int].first_cluster as int;
            proof {
                if good {
                    reveal(wf);
                    let f = found@[k as int];
                    let q = need_of(header_at(m0, g, h).unwrap());
                    assert(found_at(m0, g, h).first_cluster == h as u32);
                    lemma_chain_in_range(m0, g, h as u32, q);
                    let ch = file_chain(m0, g, h);
                    assert forall|j: int| 0 <= j < q implies #[trigger] cl(cur, g, ch[j] as int) == cl(m0, g, ch[j] as int) by {
                        let c = ch[j];
                        assert(ch.contains(c));
                        lemma_chain_member(m0, g, h, c);
                        if keep.contains(c) {
                            let t = choose|t: int| 0 <= t < keep.len() && keep[t] == c;
                            if c as int == h {
                                lemma_header_magic(m0, g, h);
                            }
                        }
                        if in_chains(m0, g, found@, k as int, c) {
                            let j2 = choose|j2: int| 0 <= j2 < k && #[trigger] file_chain(m0, g, found@[j2].first_cluster as int).contains(c);
                            let h2 = found@[j2].first_cluster as int;
                            assert(h2 < h);
                            assert(file_chain(m0, g, h).disjoint(file_chain(m0, g, h2)));
                        }
                    }
                    lemma_file_frame(m0, cur, g, found_at(m0, g, h));
                    assert(ch[0] == h as u32);
                    assert(header_at(cur, g, h) == header_at(m0, g, h));
                    assert(found_at(cur, g, h) == found_at(m0, g, h));
                    assert(file_chain(cur, g, h) == ch);
                }
            }
            self.delete_found(found[k].first_cluster)?;
            proof {
                if old(self).healthy() {
                    assert forall|j: int| 0 <= j < k + 1 implies cl(self.mem(), g, (#[trigger] found@[j]).first_cluster as int) == crate::format::ff(4096) by {
                        if j < k {
                            let c = found@[j].first_cluster as int;
                            assert(cl(cur, g, c) == crate::format::ff(4096));
                        }
                    }
                    assert forall|c: int| 0 <= c < g.n implies #[trigger] cl(self.mem(), g, c) == cl(m1, g, c) || cl(self.mem(), g, c) == crate::format::ff(4096) by {
                        assert(cl(cur, g, c) == cl(m1, g, c) || cl(cur, g, c) == crate::format::ff(4096));
                    }
                }
            }
            proof {
                if good {
                    let ch = file_chain(m0, g, h);
                    assert forall|t: int| old(self).history().len() <= t < self.history().len() implies dropping(m1, #[trigger] self.history()[t], g, m0, found@) by {
                        if t < hist.len() {
                            assert(self.history()[t] == hist[t]);
                        } else {
                            lemma_dropping_step(m0, m1, cur, self.history()[t], g, found@, keep, k as int);
                        }
                    }
                    assert forall|c: int| 0 <= c < g.n && !keep.contains(c as u32) implies #[trigger] cl(self.mem(), g, c) == (if in_chains(m0, g, found@, k + 1, c as u32) {
                        crate::format::ff(4096)
                    } else {
                        cl(m0, g, c)
                    }) by {
                        if ch.contains(c as u32) {
                            assert(file_chain(m0, g, found@[k as int].first_cluster as int).contains(c as u32));
                        } else {
                            if in_chains(m0, g, found@, k + 1, c as u32) {
                                let j2 = choose|j2: int| 0 <= j2 < k + 1 && #[trigger] file_chain(m0, g, found@[j2].first_cluster as int).contains(c as u32);
                                assert(j2 < k);
                            }
                        }
                    }
                    assert forall|c: int| 0 <= c < g.n && keep.contains(c as u32) implies #[trigger] cl(self.mem(), g, c) == cl(m1, g, c) by {
                        if ch.contains(c as u32) {
                            reveal(wf);
                            lemma_chain_member(m0, g, h, c as u32);
                            let t = choose|t: int| 0 <= t < keep.len() && keep[t] == c as u32;
                            if c == h {
                                lemma_header_magic(m0, g, h);
                            }
                        }
                    }
                }
            }
            k = k + 1;
        }
        Ok(())
    }
}

impl<F: Flash> Store<F> {
    /// Deletes every copy of the file `name`.
    fn delete_name(&mut self, name: &[u8]) -> (r: Result<(), StoreError>)
        requires
            old(self).inv(),
        ensures
            final(self).inv(),
            final(self).frame(old(self)),
            r matches Err(e) ==> e == StoreError::NotFound || e == StoreError::Storage,
            r == Err::<(), StoreError>(StoreError::NotFound) ==> final(self).mem() == old(self).mem(),
            old(self).healthy() ==> r == (if copies(old(self).mem(), old(self).geo(), name@).len() == 0 {
                Err::<(), StoreError>(StoreError::NotFound)
            } else {
                Ok(())
            }),
            old(self).healthy() && wf(old(self).mem(), old(self).geo()) ==> {
                let g = old(self).geo();
                &&& wf(final(self).mem(), g)
                &&& read_result(final(self).mem(), g, name@) == Err::<Seq<u8>, StoreError>(StoreError::NotFound)
                &&& copies(final(self).mem(), g, name@) == Seq::<FoundFile>::empty()
                &&& forall|other: Seq<u8>| other != name@ ==> #[trigger] read_result(final(self).mem(), g, other) == read_result(old(self).mem(), g, other)
                &&& forall|other: Seq<u8>| other != name@ ==> #[trigger] copies(final(self).mem(), g, other) == copies(old(self).mem(), g, other)
            },
            old(self).healthy() ==> copies(final(self).mem(), old(self).geo(), name@) == Seq::<FoundFile>::empty()
                && read_result(final(self).mem(), old(self).geo(), name@) == Err::<Seq<u8>, StoreError>(StoreError::NotFound),
            old(self).history().is_prefix_of(final(self).history()),
            old(self).healthy() && wf(old(self).mem(), old(self).geo()) ==> forall|t: int| old(self).history().len() <= t < final(self).history().len()
                ==> recovers_or_gone(old(self).mem(), #[trigger] final(self).history()[t], old(self).geo(), name@),
    {
        let ghost m0 = self.mem();
        let ghost g = self.geo();
        let found = self.find_files(name);
        if found.len() == 0 {
            return Err(StoreError::NotFound);
        }
        self.delete_copies(&found, Ghost(m0), Ghost(name@), Ghost(Seq::empty()))?;
        proof {
            if old(self).healthy() {
                let m2 = self.mem();
                lemma_copies_members(m0, g, name@, g.n as nat);
                assert forall|c: int| 0 <= c < g.n implies !#[trigger] is_copy(m2, g, c, name@) by {
                    if is_copy(m2, g, c, name@) {
                        if cl(m2, g, c) == crate::format::ff(4096) {
                            lemma_ff_cluster(m2, g, c);
                        }
                        assert(cl(m2, g, c) == cl(m0, g, c));
                        assert(is_copy(m0, g, c, name@));
                        let j = choose|j: int| 0 <= j < found@.len() && #[trigger] found@[j].first_cluster == c;
                        assert(cl(m2, g, found@[j].first_cluster as int) == crate::format::ff(4096));
                        lemma_ff_cluster(m2, g, c);
                    }
                }
                lemma_copies_none(m2, g, name@, g.n as nat);
            }
        }
        proof {
            if old(self).healthy() && wf(m0, g) {
                assert forall|t: int| old(self).history().len() <= t < self.history().len() implies recovers_or_gone(m0, #[trigger] self.history()[t], g, name@) by {
                    crate::recovery::lemma_delete_reopens(m0, self.history()[t], g, name@);
                }
                let cs = Seq::<u32>::empty();
                assert(updated(m0, self.mem(), g, name@, Seq::empty(), 0, cs)) by {
                    reveal(updated);
                }
                lemma_update_outcome(m0, self.mem(), g, self.v1_used@, name@, Seq::empty(), 0, cs);
            }
        }
        Ok(())
    }

    /// Delete a file. Returns [`StoreError::NotFound`] if it does not exist.
    pub fn delete(&mut self, file_name: &str) -> (r: Result<(), StoreError>)
        requires
            old(self).inv(),
        ensures
            final(self).inv(),
            final(self).frame(old(self)),
            r matches Err(e) ==> e == StoreError::NotFound || e == StoreError::Storage,
            r == Err::<(), StoreError>(StoreError::NotFound) ==> final(self).mem() == old(self).mem(),
            old(self).healthy() ==> r == (if copies(old(self).mem(), old(self).geo(), file_name.spec_bytes()).len() == 0 {
                Err::<(), StoreError>(StoreError::NotFound)
            } else {
                Ok(())
            }),
            old(self).healthy() && wf(old(self).mem(), old(self).geo()) ==> {
                let g = old(self).geo();
                &&& wf(final(self).mem(), g)
                &&& read_result(final(self).mem(), g, file_name.spec_bytes()) == Err::<Seq<u8>, StoreError>(StoreError::NotFound)
                &&& forall|other: Seq<u8>| other != file_name.spec_bytes() ==> #[trigger] read_result(final(self).mem(), g, other) == read_result(old(self).mem(), g, other)
            },
            old(self).healthy() ==> copies(final(self).mem(), old(self).geo(), file_name.spec_bytes()) == Seq::<FoundFile>::empty()
                && read_result(final(self).mem(), old(self).geo(), file_name.spec_bytes()) == Err::<Seq<u8>, StoreError>(StoreError::NotFound),
            old(self).history().is_prefix_of(final(self).history()),
            old(self).healthy() && wf(old(self).mem(), old(self).geo()) ==> forall|t: int| old(self).history().len() <= t < final(self).history().len()
                ==> recovers_or_gone(old(self).mem(), #[trigger] final(self).history()[t], old(self).geo(), file_name.spec_bytes()),
    {
        self.delete_name(file_name.as_bytes())
    }
}

// ============================ directories ============================

/// The byte of `'/'`.
pub open spec fn slash() -> u8 {
    0x2Fu8
}

/// The directory prefix that `path` names: the path itself when it ends with `'/'`,
/// else the path followed by `'/'`.
pub open spec fn dir_prefix(path: Seq<u8>) -> Seq<u8> {
    if path.len() > 0 && path.last() == slash() {
        path
    } else {
        path.push(slash())
    }
}

/// `k` is the position of the first `'/'` in `s`.
pub open spec fn is_first_slash(s: Seq<u8>, k: int) -> bool {
    &&& 0 <= k < s.len()
    &&& s[k] == slash()
    &&& forall|t: int| 0 <= t < k ==> s[t] != slash()
}

/// The entry that the file `name` gives in a listing of the directory `prefix`, when it
/// lies under it: the name itself when it lies directly in the directory, else the
/// child directory that holds it, written with a trailing `'/'`.
pub open spec fn dir_entry(prefix: Seq<u8>, name: Seq<u8>) -> Option<Seq<u8>> {
    if prefix.is_prefix_of(name) {
        let rest = name.subrange(prefix.len() as int, name.len() as int);
        if exists|k: int| is_first_slash(rest, k) {
            let k = choose|k: int| is_first_slash(rest, k);
            Some(name.subrange(0, prefix.len() + k + 1))
        } else {
            Some(name)
        }
    } else {
        None
    }
}

/// The entries of the directory `prefix` given by the files `names`, each once, in the
/// order in which they first occur.
pub open spec fn listing(prefix: Seq<u8>, names: Seq<Seq<u8>>) -> Seq<Seq<u8>>
    decreases names.len(),
{
    if names.len() == 0 {
        Seq::empty()
    } else {
        let prev = listing(prefix, names.drop_last());
        match dir_entry(prefix, names.last()) {
            Some(e) => if prev.contains(e) {
                prev
            } else {
                prev.push(e)
            },
            None => prev,
        }
    }
}

/// The number of the files `names` that lie under the directory `prefix`.
pub open spec fn count_under(prefix: Seq<u8>, names: Seq<Seq<u8>>) -> nat
    decreases names.len(),
{
    if names.len() == 0 {
        0
    } else {
        count_under(prefix, names.drop_last()) + if prefix.is_prefix_of(names.last()) {
            1nat
        } else {
            0nat
        }
    }
}

/// A `'/'` in `s` makes a first one.
proof fn lemma_first_slash_exists(s: Seq<u8>, t: int)
    requires
        0 <= t < s.len(),
        s[t] == slash(),
    ensures
        exists|k: int| is_first_slash(s, k),
    decreases t,
{
    if exists|u: int| 0 <= u < t && s[u] == slash() {
        let u = choose|u: int| 0 <= u < t && s[u] == slash();
        lemma_first_slash_exists(s, u);
    } else {
        assert(is_first_slash(s, t));
    }
}

/// A file gives an entry in the directory `prefix` exactly when it lies under it, and
/// the entry is the shortest part of its name after the prefix that ends with a `'/'`,
/// or the whole name when no `'/'` follows the prefix before its last byte.
pub proof fn lemma_dir_entry_law(prefix: Seq<u8>, name: Seq<u8>)
    ensures
        (dir_entry(prefix, name) is Some) == prefix.is_prefix_of(name),
        prefix.is_prefix_of(name) ==> ({
            let e = dir_entry(prefix, name).unwrap();
            &&& prefix.is_prefix_of(e)
            &&& e.is_prefix_of(name)
            &&& forall|t: int| prefix.len() <= t < e.len() - 1 ==> #[trigger] e[t] != slash()
            &&& e == name || (e.len() > prefix.len() && e.last() == slash())
        }),
{
    if prefix.is_prefix_of(name) {
        let p = prefix.len() as int;
        let rest = name.subrange(p, name.len() as int);
        let e = dir_entry(prefix, name).unwrap();
        if exists|k: int| is_first_slash(rest, k) {
            let k = choose|k: int| is_first_slash(rest, k);
            assert(e == name.subrange(0, p + k + 1));
            assert forall|t: int| prefix.len() <= t < e.len() - 1 implies #[trigger] e[t] != slash() by {
                assert(e[t] == rest[t - p]);
            }
            assert(e.last() == rest[k]);
            assert forall|t: int| 0 <= t < prefix.len() implies #[trigger] e[t] == prefix[t] by {
                assert(name[t] == prefix[t]);
            }
        } else {
            assert(e == name);
            assert forall|t: int| prefix.len() <= t < e.len() - 1 implies #[trigger] e[t] != slash() by {
                if e[t] == slash() {
                    assert(rest[t - p] == slash());
                    lemma_first_slash_exists(rest, t - p);
                }
            }
        }
    }
}

/// The file `name` gives the entry `e` in a listing of the directory `prefix`.
pub open spec fn gives_entry(prefix: Seq<u8>, name: Seq<u8>, e: Seq<u8>) -> bool {
    dir_entry(prefix, name) == Some(e)
}

/// A listing names each entry once, an entry is in it exactly when one of the files
/// `names` gives that entry in the directory `prefix`, and the entries come in the order
/// in which the files first give them.
pub proof fn lemma_listing_law(prefix: Seq<u8>, names: Seq<Seq<u8>>)
    ensures
        listing(prefix, names).no_duplicates(),
        forall|e: Seq<u8>|
            #[trigger] listing(prefix, names).contains(e) <==> exists|i: int| 0 <= i < names.len() && #[trigger] dir_entry(prefix, names[i]) == Some(e),
        forall|a: int, b: int, j: int|
            #![trigger listing(prefix, names)[a], gives_entry(prefix, names[j], listing(prefix, names)[b])]
            0 <= a < b < listing(prefix, names).len() && listing(prefix, names)[a] != listing(prefix, names)[b] && 0 <= j < names.len() && gives_entry(prefix, names[j], listing(prefix, names)[b])
            ==> exists|i: int| 0 <= i < j && #[trigger] gives_entry(prefix, names[i], listing(prefix, names)[a]),
    decreases names.len(),
{
    if names.len() > 0 {
        let init = names.drop_last();
        let last = names.len() - 1;
        lemma_listing_law(prefix, init);
        let prev = listing(prefix, init);
        let cur = listing(prefix, names);
        assert forall|i: int| 0 <= i < init.len() implies #[trigger] init[i] == names[i] by {}
        assert forall|t: int| 0 <= t < prev.len() implies #[trigger] cur[t] == prev[t] by {
            if !(cur == prev) {
                assert(cur == prev.push(dir_entry(prefix, names[last]).unwrap()));
            }
        }
        if let Some(x) = dir_entry(prefix, names[last]) {
            if !prev.contains(x) {
                assert(cur == prev.push(x));
                assert forall|a: int, b: int| 0 <= a < b < cur.len() implies cur[a] != cur[b] by {
                    if b == cur.len() - 1 {
                        assert(cur[a] == prev[a]);
                        assert(prev.contains(cur[a]));
                    } else {
                        assert(cur[a] == prev[a] && cur[b] == prev[b]);
                    }
                }
            }
        }
        assert forall|e: Seq<u8>|
            #[trigger] cur.contains(e) <==> exists|i: int| 0 <= i < names.len() && #[trigger] dir_entry(prefix, names[i]) == Some(e) by {
            if cur.contains(e) {
                let t = choose|t: int| 0 <= t < cur.len() && cur[t] == e;
                if t < prev.len() {
                    assert(prev[t] == e);
                    assert(prev.contains(e));
                    let i = choose|i: int| 0 <= i < init.len() && #[trigger] dir_entry(prefix, init[i]) == Some(e);
                    assert(init[i] == names[i]);
                    assert(dir_entry(prefix, names[i]) == Some(e));
                } else {
                    assert(dir_entry(prefix, names[last]) == Some(e));
                }
            }
            if exists|i: int| 0 <= i < names.len() && #[trigger] dir_entry(prefix, names[i]) == Some(e) {
                let i = choose|i: int| 0 <= i < names.len() && #[trigger] dir_entry(prefix, names[i]) == Some(e);
                if i < last {
                    assert(init[i] == names[i]);
                    assert(dir_entry(prefix, init[i]) == Some(e));
                    assert(prev.contains(e));
                    let t = choose|t: int| 0 <= t < prev.len() && prev[t] == e;
                    if !(cur == prev) {
                        assert(cur[t] == prev[t]);
                    }
                    assert(cur[t] == e);
                } else if prev.contains(e) {
                    let t = choose|t: int| 0 <= t < prev.len() && prev[t] == e;
                    if !(cur == prev) {
                        assert(cur[t] == prev[t]);
                    }
                    assert(cur[t] == e);
                } else {
                    assert(cur == prev.push(e));
                    assert(cur[cur.len() - 1] == e);
                }
            }
        }
        assert forall|a: int, b: int, j: int|
            #![trigger listing(prefix, names)[a], gives_entry(prefix, names[j], listing(prefix, names)[b])]
            0 <= a < b < listing(prefix, names).len() && listing(prefix, names)[a] != listing(prefix, names)[b] && 0 <= j < names.len() && gives_entry(prefix, names[j], listing(prefix, names)[b])
            implies exists|i: int| 0 <= i < j && #[trigger] gives_entry(prefix, names[i], listing(prefix, names)[a]) by {
            assert(cur[a] == prev[a]);
            assert(prev.contains(prev[a]));
            if b < prev.len() {
                assert(cur[b] == prev[b]);
                if j < last {
                    assert(gives_entry(prefix, init[j], prev[b]));
                    let i = choose|i: int| 0 <= i < j && #[trigger] gives_entry(prefix, init[i], prev[a]);
                    assert(gives_entry(prefix, names[i], cur[a]));
                } else {
                    assert(prev.contains(prev[b]));
                    let j2 = choose|j2: int| 0 <= j2 < init.len() && #[trigger] dir_entry(prefix, init[j2]) == Some(prev[b]);
                    assert(gives_entry(prefix, init[j2], prev[b]));
                    let i = choose|i: int| 0 <= i < j2 && #[trigger] gives_entry(prefix, init[i], prev[a]);
                    assert(gives_entry(prefix, names[i], cur[a]));
                }
            } else {
                let i = choose|i: int| 0 <= i < init.len() && #[trigger] dir_entry(prefix, init[i]) == Some(prev[a]);
                assert(gives_entry(prefix, names[i], cur[a]));
                if j < last {
                    assert(dir_entry(prefix, init[j]) == Some(cur[b]));
                    assert(cur == prev.push(cur[b]));
                    assert(prev.contains(cur[b]));
                    assert(false);
                }
            }
        }
    } else {
        assert(listing(prefix, names).len() == 0);
    }
}

/// The names under the directory `prefix` among `names`, as a set.
pub open spec fn names_under(prefix: Seq<u8>, names: Seq<Seq<u8>>) -> Set<Seq<u8>> {
    Set::new(|y: Seq<u8>| names.contains(y) && prefix.is_prefix_of(y))
}

/// The files of the partition that lie under the directory `prefix`.
pub open spec fn files_under(mem: Seq<u8>, g: Geo, prefix: Seq<u8>) -> Set<Seq<u8>> {
    Set::new(|x: Seq<u8>| prefix.is_prefix_of(x) && copies(mem, g, x).len() > 0)
}

/// Among names that occur once each, `count_under` counts the distinct names that lie
/// under the directory `prefix`: two files in one subdirectory count twice.
pub proof fn lemma_count_under_law(prefix: Seq<u8>, names: Seq<Seq<u8>>)
    requires
        names.no_duplicates(),
    ensures
        names_under(prefix, names).finite(),
        names_under(prefix, names).len() == count_under(prefix, names),
    decreases names.len(),
{
    broadcast use vstd::set::group_set_axioms;
    if names.len() == 0 {
        assert(names_under(prefix, names) =~= Set::<Seq<u8>>::empty());
    } else {
        let init = names.drop_last();
        let last = names.last();
        assert(init.no_duplicates()) by {
            assert forall|a: int, b: int| 0 <= a < b < init.len() implies init[a] != init[b] by {
                assert(names[a] != names[b]);
            }
        }
        lemma_count_under_law(prefix, init);
        assert(!init.contains(last)) by {
            if init.contains(last) {
                let t = choose|t: int| 0 <= t < init.len() && init[t] == last;
                assert(names[t] == names[names.len() - 1]);
            }
        }
        assert forall|y: Seq<u8>| #[trigger] names.contains(y) <==> init.contains(y) || y == last by {
            if names.contains(y) {
                let t = choose|t: int| 0 <= t < names.len() && names[t] == y;
                if t < init.len() {
                    assert(init[t] == y);
                }
            }
            if init.contains(y) {
                let t = choose|t: int| 0 <= t < init.len() && init[t] == y;
                assert(names[t] == y);
            }
            if y == last {
                assert(names[names.len() - 1] == y);
            }
        }
        if prefix.is_prefix_of(last) {
            assert(names_under(prefix, names) =~= names_under(prefix, init).insert(last));
        } else {
            assert(names_under(prefix, names) =~= names_under(prefix, init));
        }
    }
}

/// Whether `p` is a prefix of `s`.
fn starts_with(s: &[u8], p: &[u8]) -> (r: bool)
    ensures
        r == p@.is_prefix_of(s@),
{
    if p.len() > s.len() {
        return false;
    }
    let mut i: usize = 0;
    while i < p.len()
        invariant
            p@.len() <= s@.len(),
            i <= p@.len(),
            forall|k: int| 0 <= k < i ==> p@[k] == s@[k],
        decreases p@.len() - i,
    {
        if p[i] != s[i] {
            return false;
        }
        i = i + 1;
    }
    assert(p@ =~= s@.subrange(0, p@.len() as int));
    true
}

/// The directory prefix of `path` as bytes.
fn make_prefix(path: &str) -> (r: Vec<u8>)
    ensures
        r@ == dir_prefix(path.spec_bytes()),
        valid_utf8(r@),
{
    let bytes = path.as_bytes();
    let mut v = vstd::slice::slice_to_vec(bytes);
    let n = v.len();
    proof {
        vstd::utf8::encode_utf8_valid_utf8(path@);
    }
    if n == 0 || v[n - 1] != 0x2F {
        v.push(0x2F);
        proof {
            let one = seq![0x2Fu8];
            assert(valid_utf8(one)) by {
                reveal_with_fuel(valid_utf8, 2);
            }
            vstd::utf8::valid_utf8_concat(bytes@, one);
            assert(v@ =~= bytes@ + one);
        }
    }
    v
}

/// A prefix of a valid UTF-8 string that ends just before a `'/'`, followed by that
/// `'/'`, is valid UTF-8.
proof fn lemma_slash_cut(name: Seq<u8>, k: int)
    requires
        valid_utf8(name),
        0 <= k < name.len(),
        name[k] == slash(),
    ensures
        valid_utf8(name.subrange(0, k + 1)),
{
    vstd::utf8::is_char_boundary_iff_not_is_continuation_byte(name, k);
    assert(!vstd::utf8::is_continuation_byte(name[k]));
    vstd::utf8::valid_utf8_split(name, k);
    let one = seq![0x2Fu8];
    assert(valid_utf8(one)) by {
        reveal_with_fuel(valid_utf8, 2);
    }
    vstd::utf8::valid_utf8_concat(name.subrange(0, k), one);
    assert(name.subrange(0, k) + one =~= name.subrange(0, k + 1));
}

/// The entry that `name` gives in a listing of the directory `prefix`.
fn entry_of(prefix: &[u8], name: &[u8]) -> (r: Option<Vec<u8>>)
    requires
        valid_utf8(name@),
    ensures
        match r {
            Some(v) => dir_entry(prefix@, name@) == Some(v@),
            None => dir_entry(prefix@, name@) is None,
        },
        r matches Some(v) ==> valid_utf8(v@),
{
    if !starts_with(name, prefix) {
        return None;
    }
    let plen = prefix.len();
    let ghost rest = name@.subrange(plen as int, name@.len() as int);
    let mut i: usize = plen;
    while i < name.len()
        invariant
            plen == prefix@.len(),
            plen <= i <= name@.len(),
            valid_utf8(name@),
            prefix@.is_prefix_of(name@),
            rest == name@.subrange(plen as int, name@.len() as int),
            forall|t: int| 0 <= t < i - plen ==> rest[t] != slash(),
        decreases name@.len() - i,
    {
        if name[i] == 0x2F {
            let mut v: Vec<u8> = vstd::slice::slice_to_vec(slice_range(name, 0, i + 1));
            proof {
                let k = (i - plen) as int;
                assert(is_first_slash(rest, k));
                assert forall|k2: int| is_first_slash(rest, k2) implies k2 == k by {
                    if k2 < k {
                        assert(rest[k2] != slash());
                    }
                    if k < k2 {
                        assert(rest[k] != slash());
                    }
                }
                lemma_slash_cut(name@, i as int);
            }
            return Some(v);
        }
        i = i + 1;
    }
    proof {
        assert forall|k: int| !is_first_slash(rest, k) by {
            if is_first_slash(rest, k) {
                assert(rest[k] != slash());
            }
        }
    }
    Some(vstd::slice::slice_to_vec(name))
}

/// Names among the first `k` clusters are distinct, and each has a copy.
pub proof fn lemma_names_upto(mem: Seq<u8>, g: Geo, k: nat)
    requires
        k <= g.n,
    ensures
        names_upto(mem, g, k).no_duplicates(),
        names_upto(mem, g, k).len() <= k,
        forall|x: Seq<u8>| #[trigger] names_upto(mem, g, k).contains(x) ==> found_upto(mem, g, x, k).len() > 0,
    decreases k,
{
    if k > 0 {
        lemma_names_upto(mem, g, (k - 1) as nat);
        let prev = names_upto(mem, g, (k - 1) as nat);
        let cur = names_upto(mem, g, k);
        assert forall|x: Seq<u8>| #[trigger] cur.contains(x) implies found_upto(mem, g, x, k).len() > 0 by {
            lemma_copies_members(mem, g, x, (k - 1) as nat);
            lemma_copies_members(mem, g, x, k);
            if prev.contains(x) {
                assert(found_upto(mem, g, x, (k - 1) as nat).len() > 0);
                assert(found_upto(mem, g, x, k).len() >= found_upto(mem, g, x, (k - 1) as nat).len());
            } else {
                assert(is_copy(mem, g, k - 1, x));
            }
        }
        if header_at(mem, g, k - 1) is Some && !prev.contains(name_at(mem, g, k - 1)) {
            assert forall|a: int, b: int| 0 <= a < b < cur.len() implies cur[a] != cur[b] by {
                if b == cur.len() - 1 {
                    assert(prev.contains(cur[a]));
                }
            }
        }
    }
}

impl<F: Flash> Store<F> {
    /// List the direct children of `path` (like `std::fs::read_dir`); child directories
    /// are reported with a trailing `/`. `"/data"` and `"/data/"` list the same directory.
    pub fn read_dir(&mut self, path: &str) -> (r: Vec<String>)
        requires
            old(self).inv(),
        ensures
            final(self).same(old(self)),
            old(self).healthy() ==> ({
                let l = listing(dir_prefix(path.spec_bytes()), names_upto(old(self).mem(), old(self).geo(), old(self).geo().n as nat));
                &&& r@.len() == l.len()
                &&& forall|k: int| 0 <= k < r@.len() ==> #[trigger] r@[k]@ == decode_utf8(l[k])
                &&& l.no_duplicates()
                &&& forall|e: Seq<u8>| #[trigger] l.contains(e) <==> exists|x: Seq<u8>|
                    copies(old(self).mem(), old(self).geo(), x).len() > 0 && #[trigger] dir_entry(dir_prefix(path.spec_bytes()), x) == Some(e)
            }),
    {
        let ghost mem = self.mem();
        let ghost g = self.geo();
        let prefix = make_prefix(path);
        let names = self.file_names();
        let mut result: Vec<Vec<u8>> = Vec::new();
        let mut i: usize = 0;
        while i < names.len()
            invariant
                i <= names@.len(),
                forall|k: int| 0 <= k < names@.len() ==> valid_utf8(#[trigger] names@[k]@),
                forall|k: int| 0 <= k < result@.len() ==> valid_utf8(#[trigger] result@[k]@),
                self.healthy() ==> holds_names(result@, listing(prefix@, names@.take(i as int).map_values(|v: Vec<u8>| v@))),
            decreases names@.len() - i,
        {
            let ghost seen = names@.take(i as int).map_values(|v: Vec<u8>| v@);
            let ghost seen2 = names@.take(i + 1).map_values(|v: Vec<u8>| v@);
            assert(seen2.drop_last() =~= seen);
            assert(seen2.last() == names@[i as int]@);
            match entry_of(prefix.as_slice(), names[i].as_slice()) {
                Some(e) => {
                    if !contains_name(&result, e.as_slice()) {
                        let ghost before = result@;
                        result.push(e);
                        proof {
                            if self.healthy() {
                                let prev = listing(prefix@, seen);
                                assert(!prev.contains(e@)) by {
                                    if prev.contains(e@) {
                                        let k = choose|k: int| 0 <= k < prev.len() && prev[k] == e@;
                                        assert(before[k]@ == e@);
                                    }
                                }
                            }
                        }
                    } else {
                        proof {
                            if self.healthy() {
                                let prev = listing(prefix@, seen);
                                let k = choose|k: int| 0 <= k < result@.len() && #[trigger] result@[k]@ == e@;
                                assert(prev[k] == e@);
                                assert(prev.contains(e@));
                            }
                        }
                    }
                },
                None => {},
            }
            i = i + 1;
        }
        proof {
            if self.healthy() {
                let all = names@.take(i as int).map_values(|v: Vec<u8>| v@);
                assert(all =~= names_upto(mem, g, g.n as nat)) by {
                    assert(names@.take(i as int) =~= names@);
                }
                let known = names_upto(mem, g, g.n as nat);
                lemma_listing_law(prefix@, known);
                lemma_names_upto(mem, g, g.n as nat);
                let l = listing(prefix@, known);
                assert forall|e: Seq<u8>| #[trigger] l.contains(e) <==> exists|x: Seq<u8>|
                    copies(mem, g, x).len() > 0 && #[trigger] dir_entry(prefix@, x) == Some(e) by {
                    if l.contains(e) {
                        let t = choose|t: int| 0 <= t < known.len() && #[trigger] dir_entry(prefix@, known[t]) == Some(e);
                        assert(known.contains(known[t]));
                        assert(copies(mem, g, known[t]).len() > 0);
                    }
                    if exists|x: Seq<u8>| copies(mem, g, x).len() > 0 && #[trigger] dir_entry(prefix@, x) == Some(e) {
                        let x = choose|x: Seq<u8>| copies(mem, g, x).len() > 0 && #[trigger] dir_entry(prefix@, x) == Some(e);
                        lemma_names_complete(mem, g, x, g.n as nat);
                        let t = choose|t: int| 0 <= t < known.len() && known[t] == x;
                        assert(dir_entry(prefix@, known[t]) == Some(e));
                    }
                }
            }
        }
        to_strings(result)
    }

    /// Delete every file under `path` (recursively). Returns how many files were deleted.
    #[verifier::rlimit(100)]
    pub fn delete_dir(&mut self, path: &str) -> (r: Result<u32, StoreError>)
        requires
            old(self).inv(),
        ensures
            final(self).inv(),
            final(self).frame(old(self)),
            r matches Err(e) ==> e == StoreError::Storage || e == StoreError::NotFound,
            old(self).healthy() && wf(old(self).mem(), old(self).geo()) ==> {
                let g = old(self).geo();
                let prefix = dir_prefix(path.spec_bytes());
                let names = names_upto(old(self).mem(), g, g.n as nat);
                &&& r == Ok::<u32, StoreError>(count_under(prefix, names) as u32)
                &&& files_under(old(self).mem(), g, prefix).finite()
                &&& r == Ok::<u32, StoreError>(files_under(old(self).mem(), g, prefix).len() as u32)
                &&& wf(final(self).mem(), g)
                &&& forall|x: Seq<u8>| prefix.is_prefix_of(x) ==> #[trigger] read_result(final(self).mem(), g, x) == Err::<Seq<u8>, StoreError>(StoreError::NotFound)
                &&& forall|x: Seq<u8>| !prefix.is_prefix_of(x) ==> #[trigger] read_result(final(self).mem(), g, x) == read_result(old(self).mem(), g, x)
            },
    {
        let ghost m0 = self.mem();
        let ghost g = self.geo();
        let ghost good = self.healthy() && wf(m0, g);
        let prefix = make_prefix(path);
        let names = self.file_names();
        let ghost all = names_upto(m0, g, g.n as nat);
        proof {
            lemma_names_upto(m0, g, g.n as nat);
        }
        let mut count: u32 = 0;
        let mut i: usize = 0;
        while i < names.len()
            invariant
                self.inv(),
                self.frame(old(self)),
                g == self.geo(),
                i <= names@.len(),
                names@.len() <= g.n,
                count <= i,
                good == (old(self).healthy() && wf(m0, g)),
                m0 == old(self).mem(),
                g == old(self).geo(),
                all == names_upto(m0, g, g.n as nat),
                good ==> holds_names(names@, all),
                good ==> all.no_duplicates(),
                good ==> forall|x: Seq<u8>| #[trigger] all.contains(x) ==> copies(m0, g, x).len() > 0,
                good ==> self.healthy() && wf(self.mem(), g),
                good ==> count == count_under(prefix@, all.take(i as int)),
                good ==> forall|x: Seq<u8>|
                    #![trigger read_result(self.mem(), g, x)]
                    #![trigger copies(self.mem(), g, x)]
                    (prefix@.is_prefix_of(x) && all.take(i as int).contains(x)) ==> read_result(self.mem(), g, x) == Err::<Seq<u8>, StoreError>(StoreError::NotFound)
                        && copies(self.mem(), g, x) == Seq::<FoundFile>::empty(),
                good ==> forall|x: Seq<u8>|
                    #![trigger read_result(self.mem(), g, x)]
                    #![trigger copies(self.mem(), g, x)]
                    !(prefix@.is_prefix_of(x) && all.take(i as int).contains(x)) ==> read_result(self.mem(), g, x) == read_result(m0, g, x)
                        && copies(self.mem(), g, x) == copies(m0, g, x),
            decreases names@.len() - i,
        {
            let ghost x = all[i as int];
            let ghost nxt = all.take(i + 1 as int);
            let ghost now = all.take(i as int);
            proof {
                if good {
                    assert(names@[i as int]@ == x);
                    assert(nxt.drop_last() =~= now);
                    assert(nxt.last() == x);
                    assert(!now.contains(x)) by {
                        if now.contains(x) {
                            let t = choose|t: int| 0 <= t < i && now[t] == x;
                            assert(all[t] == all[i as int]);
                        }
                    }
                    assert(all.contains(x));
                }
            }
            if starts_with(names[i].as_slice(), prefix.as_slice()) {
                proof {
                    if good {
                        assert(copies(self.mem(), g, x) == copies(m0, g, x));
                        assert(copies(self.mem(), g, x).len() > 0);
                    }
                }
                let nm = names[i].as_slice();
                assert(good ==> nm@ == x);
                let res = self.delete_name(nm);
                assert(good ==> res is Ok);
                res?;
                count = count + 1;
                proof {
                    if good {
                        assert forall|y: Seq<u8>|
                            (prefix@.is_prefix_of(y) && nxt.contains(y)) implies #[trigger] read_result(self.mem(), g, y) == Err::<Seq<u8>, StoreError>(StoreError::NotFound)
                                && copies(self.mem(), g, y) == Seq::<FoundFile>::empty() by {
                            if y != x {
                                let t = choose|t: int| 0 <= t < i + 1 && nxt[t] == y;
                                assert(now[t] == y);
                            }
                        }
                        assert forall|y: Seq<u8>|
                            !(prefix@.is_prefix_of(y) && nxt.contains(y)) implies #[trigger] read_result(self.mem(), g, y) == read_result(m0, g, y)
                                && copies(self.mem(), g, y) == copies(m0, g, y) by {
                            assert(y != x);
                            if now.contains(y) {
                                let t = choose|t: int| 0 <= t < i && now[t] == y;
                                assert(nxt[t] == y);
                            }
                        }
                    }
                }
            } else {
                proof {
                    if good {
                        assert forall|y: Seq<u8>|
                            (prefix@.is_prefix_of(y) && nxt.contains(y)) implies #[trigger] read_result(self.mem(), g, y) == Err::<Seq<u8>, StoreError>(StoreError::NotFound)
                                && copies(self.mem(), g, y) == Seq::<FoundFile>::empty() by {
                            let t = choose|t: int| 0 <= t < i + 1 && nxt[t] == y;
                            if t < i {
                                assert(now[t] == y);
                            }
                        }
                        assert forall|y: Seq<u8>|
                            !(prefix@.is_prefix_of(y) && nxt.contains(y)) implies #[trigger] read_result(self.mem(), g, y) == read_result(m0, g, y)
                                && copies(self.mem(), g, y) == copies(m0, g, y) by {
                            if now.contains(y) {
                                let t = choose|t: int| 0 <= t < i && now[t] == y;
                                assert(nxt[t] == y);
                            }
                        }
                    }
                }
            }
            i = i + 1;
        }
        proof {
            if good {
                assert(all.take(i as int) =~= all);
                assert forall|x: Seq<u8>| prefix@.is_prefix_of(x) implies #[trigger] read_result(self.mem(), g, x) == Err::<Seq<u8>, StoreError>(StoreError::NotFound) by {
                    if !all.contains(x) {
                        assert(read_result(self.mem(), g, x) == read_result(m0, g, x));
                        if copies(m0, g, x).len() > 0 {
                            lemma_names_complete(m0, g, x, g.n as nat);
                        }
                    }
                }
                lemma_count_under_law(prefix@, all);
                assert forall|x: Seq<u8>| #[trigger] files_under(m0, g, prefix@).contains(x) <==> names_under(prefix@, all).contains(x) by {
                    if copies(m0, g, x).len() > 0 {
                        lemma_names_complete(m0, g, x, g.n as nat);
                    }
                }
                assert(files_under(m0, g, prefix@) =~= names_under(prefix@, all));
            }
        }
        Ok(count)
    }
}

/// A name with a copy among the first `k` clusters is among their names.
pub proof fn lemma_names_complete(mem: Seq<u8>, g: Geo, x: Seq<u8>, k: nat)
    requires
        found_upto(mem, g, x, k).len() > 0,
    ensures
        names_upto(mem, g, k).contains(x),
    decreases k,
{
    if k > 0 {
        let prev = names_upto(mem, g, (k - 1) as nat);
        if found_upto(mem, g, x, (k - 1) as nat).len() > 0 {
            lemma_names_complete(mem, g, x, (k - 1) as nat);
            let t = choose|t: int| 0 <= t < prev.len() && prev[t] == x;
            assert(names_upto(mem, g, k)[t] == x);
        } else {
            assert(is_copy(mem, g, k - 1, x));
            if !prev.contains(x) {
                assert(names_upto(mem, g, k).last() == x);
            }
        }
    }
}

impl<F: Flash> Store<F> {
    /// Writes the file `name` (UTF-8 bytes) with `file_data`, replacing its old copies
    /// once the new one is whole.
    #[verifier::spinoff_prover]
    #[verifier::rlimit(50)]
    fn write_name(&mut self, name: &[u8], file_data: &[u8]) -> (r: Result<(), StoreError>)
        requires
            old(self).inv(),
            valid_utf8(name@),
        ensures
            final(self).inv(),
            final(self).keeps_layout(old(self)),
            r matches Err(e) ==> e == StoreError::NameTooLong || e == StoreError::NoSpace || e == StoreError::Storage,
            (r == Err::<(), StoreError>(StoreError::NameTooLong)) == (name@.len() > MAX_NAME_LEN),
            name@.len() <= MAX_NAME_LEN && file_data@.len() > u32::MAX ==> r == Err::<(), StoreError>(StoreError::NoSpace),
            r == Err::<(), StoreError>(StoreError::NoSpace) || r == Err::<(), StoreError>(StoreError::NameTooLong) ==> final(self).mem() == old(self).mem() && final(self).cursor() == old(self).cursor(),
            old(self).healthy() ==> r != Err::<(), StoreError>(StoreError::Storage),
            old(self).healthy() && name@.len() <= MAX_NAME_LEN && file_data@.len() <= u32::MAX ==> (
                r == Err::<(), StoreError>(StoreError::NoSpace) <==> alloc_from(
                    old(self).mem(),
                    old(self).geo(),
                    old(self).v1_map(),
                    old(self).cursor(),
                    Seq::empty(),
                    spec_need(name@.len(), file_data@.len()),
                ) is None),
            old(self).healthy() && wf(old(self).mem(), old(self).geo()) && r is Ok ==> {
                let g = old(self).geo();
                let name = name@;
                &&& wf(final(self).mem(), g)
                &&& read_result(final(self).mem(), g, name) == Ok::<Seq<u8>, StoreError>(file_data@)
                &&& copies(final(self).mem(), g, name).len() == 1
                &&& copies(final(self).mem(), g, name)[0].header == file_header(name, file_data@, next_generation(copies(old(self).mem(), g, name)))
                &&& forall|other: Seq<u8>| other != name ==> #[trigger] read_result(final(self).mem(), g, other) == read_result(old(self).mem(), g, other)
                &&& forall|other: Seq<u8>| other != name ==> #[trigger] copies(final(self).mem(), g, other) == copies(old(self).mem(), g, other)
                &&& forall|c: int| 0 <= c < g.n && !free_at(old(self).mem(), g, old(self).v1_map(), c) && word0(old(self).mem(), g, c) != MAGIC
                    && word0(old(self).mem(), g, c) != CONT_B ==> #[trigger] cl(final(self).mem(), g, c) == cl(old(self).mem(), g, c)
                &&& forall|c: int| 0 <= c < g.n && #[trigger] cl(final(self).mem(), g, c) != cl(old(self).mem(), g, c) ==> word0(final(self).mem(), g, c) == MAGIC
                    || word0(final(self).mem(), g, c) == CONT_B || cl(final(self).mem(), g, c) == crate::format::ff(4096)
                &&& alloc_from(old(self).mem(), g, old(self).v1_map(), old(self).cursor(), Seq::empty(), spec_need(name.len(), file_data@.len()))
                    matches Some((cs, c)) && final(self).cursor() == c && copies(final(self).mem(), g, name)[0].first_cluster == cs[0]
            },
            old(self).history().is_prefix_of(final(self).history()),
            old(self).healthy() && wf(old(self).mem(), old(self).geo()) ==> forall|t: int| old(self).history().len() <= t < final(self).history().len()
                ==> recovers(old(self).mem(), #[trigger] final(self).history()[t], old(self).geo(), name@, file_data@),
    {
        let ghost m0 = self.mem();
        let ghost g = self.geo();
        let ghost h0 = self.history().len();
        if name.len() > MAX_NAME_LEN {
            return Err(StoreError::NameTooLong);
        }
        if file_data.len() as u64 > u32::MAX as u64 {
            return Err(StoreError::NoSpace);
        }
        let existing = self.find_files(name);
        let generation = match newest_in(&existing) {
            Some(f) => f.header.generation.wrapping_add(1),
            None => 0,
        };
        let quantity = need_clusters(name.len(), file_data.len());
        let clusters = match self.allocate_clusters(quantity) {
            Some(c) => c,
            None => {
                return Err(StoreError::NoSpace);
            },
        };
        proof {
            lemma_distinct_bound(clusters@, g.n);
        }
        self.save_file(name, file_data, generation, &clusters)?;
        let ghost m1 = self.mem();
        let ghost hist1 = self.history();
        proof {
            if old(self).healthy() {
                assert forall|k: int| 0 <= k < clusters@.len() implies word0(m0, g, #[trigger] clusters@[k] as int) != MAGIC && word0(m0, g, clusters@[k] as int) != CONT_B by {
                    assert(free_at(m0, g, self.v1_used@, clusters@[k] as int));
                }
            }
        }
        self.delete_copies(&existing, Ghost(m0), Ghost(name@), Ghost(clusters@))?;
        proof {
            if old(self).healthy() && wf(m0, g) {
                let m2 = self.mem();
                lemma_need_fits(name@.len(), file_data@.len(), g.n as nat, g.size as nat);
                assert(new_file_ok(m0, g, self.v1_used@, name@, file_data@, clusters@));
                assert(updated(m0, m2, g, name@, file_data@, generation, clusters@)) by {
                    reveal(updated);
                }
                lemma_update_outcome(m0, m2, g, self.v1_used@, name@, file_data@, generation, clusters@);
                lemma_update_touches(m0, m2, g, self.v1_used@, name@, file_data@, generation, clusters@);
                let hist = self.history();
                assert forall|t: int| h0 <= t < hist1.len() implies saving(m0, #[trigger] hist[t], g, name@, file_data@, generation, clusters@) by {
                    assert(hist[t] == hist1[t]);
                }
                crate::recovery::lemma_write_history(m0, m1, hist, h0 as int, hist1.len() as int, g, self.v1_used@, name@, file_data@, generation, clusters@);
            }
        }
        Ok(())
    }

    /// Store arbitrary binary data. Overwrites any existing file with the same name.
    ///
    /// The old copy is deleted only after the new one is fully written, so a power
    /// loss never destroys the previous version, but an overwrite needs enough free
    /// space for both copies at the same time.
    pub fn write_bytes(&mut self, file_name: &str, file_data: &[u8]) -> (r: Result<(), StoreError>)
        requires
            old(self).inv(),
        ensures
            final(self).inv(),
            final(self).keeps_layout(old(self)),
            r matches Err(e) ==> e == StoreError::NameTooLong || e == StoreError::NoSpace || e == StoreError::Storage,
            (r == Err::<(), StoreError>(StoreError::NameTooLong)) == (file_name.spec_bytes().len() > MAX_NAME_LEN),
            file_name.spec_bytes().len() <= MAX_NAME_LEN && file_data@.len() > u32::MAX ==> r == Err::<(), StoreError>(StoreError::NoSpace),
            r == Err::<(), StoreError>(StoreError::NoSpace) || r == Err::<(), StoreError>(StoreError::NameTooLong) ==> final(self).mem() == old(self).mem() && final(self).cursor() == old(self).cursor(),
            old(self).healthy() ==> r != Err::<(), StoreError>(StoreError::Storage),
            old(self).healthy() && file_name.spec_bytes().len() <= MAX_NAME_LEN && file_data@.len() <= u32::MAX ==> (
                r == Err::<(), StoreError>(StoreError::NoSpace) <==> alloc_from(
                    old(self).mem(),
                    old(self).geo(),
                    old(self).v1_map(),
                    old(self).cursor(),
                    Seq::empty(),
                    spec_need(file_name.spec_bytes().len(), file_data@.len()),
                ) is None),
            old(self).healthy() && wf(old(self).mem(), old(self).geo()) && r is Ok ==> {
                let g = old(self).geo();
                let name = file_name.spec_bytes();
                &&& wf(final(self).mem(), g)
                &&& read_result(final(self).mem(), g, name) == Ok::<Seq<u8>, StoreError>(file_data@)
                &&& copies(final(self).mem(), g, name).len() == 1
                &&& copies(final(self).mem(), g, name)[0].header == file_header(name, file_data@, next_generation(copies(old(self).mem(), g, name)))
                &&& forall|other: Seq<u8>| other != name ==> #[trigger] read_result(final(self).mem(), g, other) == read_result(old(self).mem(), g, other)
                &&& forall|other: Seq<u8>| other != name ==> #[trigger] copies(final(self).mem(), g, other) == copies(old(self).mem(), g, other)
                &&& forall|c: int| 0 <= c < g.n && #[trigger] cl(final(self).mem(), g, c) != cl(old(self).mem(), g, c) ==> word0(final(self).mem(), g, c) == MAGIC
                    || word0(final(self).mem(), g, c) == CONT_B || cl(final(self).mem(), g, c) == crate::format::ff(4096)
                &&& forall|c: int| 0 <= c < g.n && !free_at(old(self).mem(), g, old(self).v1_map(), c) && word0(old(self).mem(), g, c) != MAGIC
                    && word0(old(self).mem(), g, c) != CONT_B ==> #[trigger] cl(final(self).mem(), g, c) == cl(old(self).mem(), g, c)
                &&& alloc_from(old(self).mem(), g, old(self).v1_map(), old(self).cursor(), Seq::empty(), spec_need(name.len(), file_data@.len()))
                    matches Some((cs, c)) && final(self).cursor() == c && copies(final(self).mem(), g, name)[0].first_cluster == cs[0]
            },
            old(self).history().is_prefix_of(final(self).history()),
            old(self).healthy() && wf(old(self).mem(), old(self).geo()) ==> forall|t: int| old(self).history().len() <= t < final(self).history().len()
                ==> recovers(old(self).mem(), #[trigger] final(self).history()[t], old(self).geo(), file_name.spec_bytes(), file_data@),
    {
        proof {
            vstd::utf8::encode_utf8_valid_utf8(file_name@);
        }
        self.write_name(file_name.as_bytes(), file_data)
    }

    /// Store a UTF-8 text file. Overwrites any existing file with the same name.
    pub fn write(&mut self, file_name: &str, file_data: &str) -> (r: Result<(), StoreError>)
        requires
            old(self).inv(),
        ensures
            final(self).inv(),
            final(self).keeps_layout(old(self)),
            r matches Err(e) ==> e == StoreError::NameTooLong || e == StoreError::NoSpace || e == StoreError::Storage,
            (r == Err::<(), StoreError>(StoreError::NameTooLong)) == (file_name.spec_bytes().len() > MAX_NAME_LEN),
            old(self).healthy() ==> r != Err::<(), StoreError>(StoreError::Storage),
            old(self).healthy() && file_name.spec_bytes().len() <= MAX_NAME_LEN && file_data.spec_bytes().len() <= u32::MAX ==> (
                r == Err::<(), StoreError>(StoreError::NoSpace) <==> alloc_from(
                    old(self).mem(),
                    old(self).geo(),
                    old(self).v1_map(),
                    old(self).cursor(),
                    Seq::empty(),
                    spec_need(file_name.spec_bytes().len(), file_data.spec_bytes().len()),
                ) is None),
            old(self).healthy() && wf(old(self).mem(), old(self).geo()) && r is Ok ==> {
                let g = old(self).geo();
                let name = file_name.spec_bytes();
                &&& wf(final(self).mem(), g)
                &&& read_result(final(self).mem(), g, name) == Ok::<Seq<u8>, StoreError>(file_data.spec_bytes())
                &&& forall|other: Seq<u8>| other != name ==> #[trigger] read_result(final(self).mem(), g, other) == read_result(old(self).mem(), g, other)
                &&& copies(final(self).mem(), g, name).len() == 1
                &&& copies(final(self).mem(), g, name)[0].header == file_header(name, file_data.spec_bytes(), next_generation(copies(old(self).mem(), g, name)))
                &&& forall|c: int| 0 <= c < g.n && #[trigger] cl(final(self).mem(), g, c) != cl(old(self).mem(), g, c) ==> word0(final(self).mem(), g, c) == MAGIC
                    || word0(final(self).mem(), g, c) == CONT_B || cl(final(self).mem(), g, c) == crate::format::ff(4096)
                &&& forall|c: int| 0 <= c < g.n && !free_at(old(self).mem(), g, old(self).v1_map(), c) && word0(old(self).mem(), g, c) != MAGIC
                    && word0(old(self).mem(), g, c) != CONT_B ==> #[trigger] cl(final(self).mem(), g, c) == cl(old(self).mem(), g, c)
                &&& alloc_from(old(self).mem(), g, old(self).v1_map(), old(self).cursor(), Seq::empty(), spec_need(name.len(), file_data.spec_bytes().len()))
                    matches Some((cs, c)) && final(self).cursor() == c && copies(final(self).mem(), g, name)[0].first_cluster == cs[0]
            },
            r == Err::<(), StoreError>(StoreError::NoSpace) || r == Err::<(), StoreError>(StoreError::NameTooLong) ==> final(self).mem() == old(self).mem() && final(self).cursor() == old(self).cursor(),
            old(self).history().is_prefix_of(final(self).history()),
            old(self).healthy() && wf(old(self).mem(), old(self).geo()) ==> forall|t: int| old(self).history().len() <= t < final(self).history().len()
                ==> recovers(old(self).mem(), #[trigger] final(self).history()[t], old(self).geo(), file_name.spec_bytes(), file_data.spec_bytes()),
    {
        self.write_bytes(file_name, file_data.as_bytes())
    }

    /// Append bytes to a file (created if it does not exist).
    ///
    /// The existing content passes through RAM (read, then rewrite).
    pub fn append_bytes(&mut self, file_name: &str, file_data: &[u8]) -> (r: Result<(), StoreError>)
        requires
            old(self).inv(),
        ensures
            final(self).inv(),
            final(self).keeps_layout(old(self)),
            old(self).healthy() ==> ({
                let g = old(self).geo();
                let name = file_name.spec_bytes();
                let before = read_result(old(self).mem(), g, name);
                let content = appended(before, file_data@);
                &&& (match before {
                    Err(e) => e != StoreError::NotFound ==> r == Err::<(), StoreError>(e) && final(self).mem() == old(self).mem(),
                    Ok(_) => true,
                })
                &&& (before is Ok || before == Err::<Seq<u8>, StoreError>(StoreError::NotFound) ==> {
                    &&& r != Err::<(), StoreError>(StoreError::Storage)
                    &&& (r == Err::<(), StoreError>(StoreError::NameTooLong)) == (name.len() > MAX_NAME_LEN)
                    &&& name.len() <= MAX_NAME_LEN && content.len() > u32::MAX ==> r == Err::<(), StoreError>(StoreError::NoSpace)
                    &&& name.len() <= MAX_NAME_LEN && content.len() <= u32::MAX ==> (r == Err::<(), StoreError>(StoreError::NoSpace)
                        <==> alloc_from(old(self).mem(), g, old(self).v1_map(), old(self).cursor(), Seq::empty(), spec_need(name.len(), content.len())) is None)
                    &&& r is Err ==> final(self).mem() == old(self).mem()
                    &&& wf(old(self).mem(), g) && r is Ok ==> {
                        &&& wf(final(self).mem(), g)
                        &&& read_result(final(self).mem(), g, name) == Ok::<Seq<u8>, StoreError>(content)
                        &&& forall|other: Seq<u8>| other != name ==> #[trigger] read_result(final(self).mem(), g, other) == read_result(old(self).mem(), g, other)
                    }
                })
            }),
            old(self).history().is_prefix_of(final(self).history()),
            old(self).healthy() && wf(old(self).mem(), old(self).geo()) ==> forall|t: int| old(self).history().len() <= t < final(self).history().len()
                ==> recovers(
                    old(self).mem(),
                    #[trigger] final(self).history()[t],
                    old(self).geo(),
                    file_name.spec_bytes(),
                    appended(read_result(old(self).mem(), old(self).geo(), file_name.spec_bytes()), file_data@),
                ),
    {
        let ghost m0 = self.mem();
        match self.read_bytes(file_name) {
            Ok(old_data) => {
                let mut content = old_data;
                content.extend_from_slice(file_data);
                proof {
                    assert(content@ =~= old_data@ + file_data@);
                }
                self.write_bytes(file_name, content.as_slice())
            },
            Err(StoreError::NotFound) => self.write_bytes(file_name, file_data),
            Err(e) => Err(e),
        }
    }

    /// Append text to a file (created if it does not exist).
    pub fn append(&mut self, file_name: &str, file_data: &str) -> (r: Result<(), StoreError>)
        requires
            old(self).inv(),
        ensures
            final(self).inv(),
            final(self).keeps_layout(old(self)),
            old(self).healthy() ==> ({
                let g = old(self).geo();
                let name = file_name.spec_bytes();
                let before = read_result(old(self).mem(), g, name);
                let content = appended(before, file_data.spec_bytes());
                &&& (match before {
                    Err(e) => e != StoreError::NotFound ==> r == Err::<(), StoreError>(e) && final(self).mem() == old(self).mem(),
                    Ok(_) => true,
                })
                &&& (before is Ok || before == Err::<Seq<u8>, StoreError>(StoreError::NotFound) ==> {
                    &&& r != Err::<(), StoreError>(StoreError::Storage)
                    &&& (r == Err::<(), StoreError>(StoreError::NameTooLong)) == (name.len() > MAX_NAME_LEN)
                    &&& name.len() <= MAX_NAME_LEN && content.len() > u32::MAX ==> r == Err::<(), StoreError>(StoreError::NoSpace)
                    &&& name.len() <= MAX_NAME_LEN && content.len() <= u32::MAX ==> (r == Err::<(), StoreError>(StoreError::NoSpace)
                        <==> alloc_from(old(self).mem(), g, old(self).v1_map(), old(self).cursor(), Seq::empty(), spec_need(name.len(), content.len())) is None)
                    &&& r is Err ==> final(self).mem() == old(self).mem()
                    &&& wf(old(self).mem(), g) && r is Ok ==> {
                        &&& wf(final(self).mem(), g)
                        &&& read_result(final(self).mem(), g, name) == Ok::<Seq<u8>, StoreError>(content)
                        &&& forall|other: Seq<u8>| other != name ==> #[trigger] read_result(final(self).mem(), g, other) == read_result(old(self).mem(), g, other)
                    }
                })
            }),
            old(self).history().is_prefix_of(final(self).history()),
            old(self).healthy() && wf(old(self).mem(), old(self).geo()) ==> forall|t: int| old(self).history().len() <= t < final(self).history().len()
                ==> recovers(
                    old(self).mem(),
                    #[trigger] final(self).history()[t],
                    old(self).geo(),
                    file_name.spec_bytes(),
                    appended(read_result(old(self).mem(), old(self).geo(), file_name.spec_bytes()), file_data.spec_bytes()),
                ),
    {
        self.append_bytes(file_name, file_data.as_bytes())
    }
}

impl<F: Flash> Store<F> {
    /// Rename `from` to `to`, replacing `to` if it exists.
    ///
    /// The content passes through RAM (read, then rewrite). On power loss the worst
    /// case is that both names exist; the content is never lost.
    #[verifier::spinoff_prover]
    #[verifier::rlimit(50)]
    pub fn rename(&mut self, from: &str, to: &str) -> (r: Result<(), StoreError>)
        requires
            old(self).inv(),
        ensures
            final(self).inv(),
            final(self).keeps_layout(old(self)),
            old(self).healthy() ==> ({
                let g = old(self).geo();
                let a = from.spec_bytes();
                let b = to.spec_bytes();
                let before = read_result(old(self).mem(), g, a);
                &&& a == b ==> final(self).mem() == old(self).mem() && r == (if copies(old(self).mem(), g, a).len() > 0 {
                    Ok::<(), StoreError>(())
                } else {
                    Err(StoreError::NotFound)
                })
                &&& a != b ==> (match before {
                    Err(e) => r == Err::<(), StoreError>(e) && final(self).mem() == old(self).mem(),
                    Ok(data) => {
                        &&& r != Err::<(), StoreError>(StoreError::Storage)
                        &&& (r == Err::<(), StoreError>(StoreError::NameTooLong)) == (b.len() > MAX_NAME_LEN)
                        &&& b.len() <= MAX_NAME_LEN && data.len() > u32::MAX ==> r == Err::<(), StoreError>(StoreError::NoSpace)
                        &&& b.len() <= MAX_NAME_LEN && data.len() <= u32::MAX ==> (r == Err::<(), StoreError>(StoreError::NoSpace)
                            <==> alloc_from(old(self).mem(), g, old(self).v1_map(), old(self).cursor(), Seq::empty(), spec_need(b.len(), data.len())) is None)
                        &&& r == Err::<(), StoreError>(StoreError::NoSpace) || r == Err::<(), StoreError>(StoreError::NameTooLong) ==> final(self).mem() == old(self).mem()
                        &&& wf(old(self).mem(), g) && r is Ok ==> {
                            &&& wf(final(self).mem(), g)
                            &&& read_result(final(self).mem(), g, b) == Ok::<Seq<u8>, StoreError>(data)
                            &&& read_result(final(self).mem(), g, a) == Err::<Seq<u8>, StoreError>(StoreError::NotFound)
                            &&& forall|other: Seq<u8>| other != a && other != b ==> #[trigger] read_result(final(self).mem(), g, other) == read_result(old(self).mem(), g, other)
                        }
                    },
                })
            }),
            old(self).history().is_prefix_of(final(self).history()),
            old(self).healthy() && wf(old(self).mem(), old(self).geo()) ==> forall|t: int| old(self).history().len() <= t < final(self).history().len()
                ==> recovers_renamed(old(self).mem(), #[trigger] final(self).history()[t], old(self).geo(), from.spec_bytes(), to.spec_bytes()),
    {
        let ghost m0 = self.mem();
        let ghost g = self.geo();
        if bytes_eq(from.as_bytes(), to.as_bytes()) {
            return if self.file_exists(from) {
                Ok(())
            } else {
                Err(StoreError::NotFound)
            };
        }
        let data = self.read_bytes(from)?;
        self.write_bytes(to, data.as_slice())?;
        let ghost m1 = self.mem();
        let ghost hist1 = self.history();
        proof {
            if old(self).healthy() {
                assert(self.healthy());
                if wf(m0, g) {
                    assert(copies(m1, g, from.spec_bytes()) == copies(m0, g, from.spec_bytes()));
                }
            }
        }
        let r = self.delete(from);
        proof {
            if old(self).healthy() {
                if wf(m0, g) {
                    assert(copies(m0, g, from.spec_bytes()).len() > 0) by {
                        lemma_read_has_copy(m0, g, from.spec_bytes());
                    }
                    assert(r is Ok);
                    assert(wf(m1, g));
                    assert(read_result(self.mem(), g, to.spec_bytes()) == read_result(m1, g, to.spec_bytes()));
                    assert(read_result(m1, g, to.spec_bytes()) == Ok::<Seq<u8>, StoreError>(data@));
                    let a = from.spec_bytes();
                    let b = to.spec_bytes();
                    let hist = self.history();
                    if no_v1(m0, g) {
                        assert forall|c: int| 0 <= c < g.n implies !#[trigger] looks_v1(m1, g, c) by {
                            if cl(m1, g, c) != cl(m0, g, c) {
                                lemma_cluster_not_v1(m1, g, c);
                            } else {
                                assert(!looks_v1(m0, g, c));
                            }
                        }
                    }
                    assert forall|t: int| old(self).history().len() <= t < hist.len() implies recovers_renamed(m0, #[trigger] hist[t], g, a, b) by {
                        let m = hist[t];
                        if t < hist1.len() {
                            assert(m == hist1[t]);
                            assert(recovers(m0, hist1[t], g, b, data@));
                            assert(crate::recovery::reopened_read(m, g, a) == read_result(m0, g, a));
                        } else {
                            assert(recovers_or_gone(m1, m, g, a));
                            assert(read_result(m1, g, a) == read_result(m0, g, a));
                            assert(crate::recovery::reopened_read(m, g, b) == read_result(m1, g, b));
                            assert forall|x: Seq<u8>| x != a && x != b implies #[trigger] crate::recovery::reopened_read(m, g, x) == read_result(m0, g, x) by {
                                assert(crate::recovery::reopened_read(m, g, x) == read_result(m1, g, x));
                                assert(read_result(m1, g, x) == read_result(m0, g, x));
                            }
                        }
                    }
                }
            }
        }
        r
    }
}

/// A file that reads back has a header, and its data fits the partition.
proof fn lemma_read_has_copy(mem: Seq<u8>, g: Geo, name: Seq<u8>)
    requires
        read_result(mem, g, name) is Ok,
    ensures
        copies(mem, g, name).len() > 0,
{
}

/// The content of a file after `data` is appended to it: its old content followed by
/// `data`, or `data` alone when there was no old content.
pub open spec fn appended(before: Result<Seq<u8>, StoreError>, data: Seq<u8>) -> Seq<u8> {
    match before {
        Ok(old) => old + data,
        Err(_) => data,
    }
}

/// A partition in which no cluster holds a header or a continuation.
pub open spec fn blank(mem: Seq<u8>, g: Geo) -> bool {
    forall|c: int| 0 <= c < g.n ==> #[trigger] word0(mem, g, c) != MAGIC && word0(mem, g, c) != CONT_B
}

/// A blank partition is well formed, holds no file and has no taken cluster.
pub proof fn lemma_blank(mem: Seq<u8>, g: Geo, name: Seq<u8>)
    requires
        blank(mem, g),
    ensures
        wf(mem, g),
        copies(mem, g, name) == Seq::<FoundFile>::empty(),
        read_result(mem, g, name) == Err::<Seq<u8>, StoreError>(StoreError::NotFound),
        names_upto(mem, g, g.n as nat) == Seq::<Seq<u8>>::empty(),
        used_upto(mem, g, Seq::empty(), g.n as nat) == 0,
{
    reveal(wf);
    assert forall|i: int| 0 <= i < g.n implies #[trigger] header_at(mem, g, i) is None by {
        if header_at(mem, g, i) is Some {
            lemma_header_magic(mem, g, i);
        }
    }
    assert forall|i: int| 0 <= i < g.n implies !#[trigger] is_copy(mem, g, i, name) by {
        assert(header_at(mem, g, i) is None);
    }
    lemma_copies_none(mem, g, name, g.n as nat);
    lemma_blank_counts(mem, g, g.n as nat);
}

/// A blank partition has no names and no taken cluster among the first `k`.
proof fn lemma_blank_counts(mem: Seq<u8>, g: Geo, k: nat)
    requires
        blank(mem, g),
        k <= g.n,
    ensures
        names_upto(mem, g, k) == Seq::<Seq<u8>>::empty(),
        used_upto(mem, g, Seq::empty(), k) == 0,
    decreases k,
{
    if k > 0 {
        lemma_blank_counts(mem, g, (k - 1) as nat);
        if header_at(mem, g, k - 1) is Some {
            lemma_header_magic(mem, g, k - 1);
        }
        assert(word0(mem, g, k - 1) != MAGIC);
    }
}

impl<F: Flash> Store<F> {
    /// Delete every file in the store.
    pub fn delete_all_data(&mut self) -> (r: Result<(), StoreError>)
        requires
            old(self).inv(),
        ensures
            final(self).inv(),
            final(self).geo() == old(self).geo(),
            final(self).cursor() == old(self).cursor(),
            r matches Err(e) ==> e == StoreError::Storage,
            old(self).healthy() ==> r is Ok && final(self).healthy() && final(self).v1_map() == Seq::<bool>::empty()
                && blank(final(self).mem(), final(self).geo()),
            old(self).healthy() ==> {
                let g = final(self).geo();
                &&& wf(final(self).mem(), g)
                &&& used_upto(final(self).mem(), g, final(self).v1_map(), g.n as nat) == 0
                &&& names_upto(final(self).mem(), g, g.n as nat) == Seq::<Seq<u8>>::empty()
                &&& forall|x: Seq<u8>| #[trigger] read_result(final(self).mem(), g, x) == Err::<Seq<u8>, StoreError>(StoreError::NotFound)
            },
    {
        let n = self.cluster_max_quantity;
        let ghost g = self.geo();
        let ghost m0 = self.mem();
        let mut i: u32 = 0;
        while i < n
            invariant
                self.inv(),
                self.frame(old(self)),
                g == self.geo(),
                n == g.n,
                i <= n,
                old(self).healthy() ==> self.healthy(),
                old(self).healthy() ==> forall|c: int| 0 <= c < i ==> #[trigger] word0(self.mem(), g, c) != MAGIC && word0(self.mem(), g, c) != CONT_B,
            decreases n - i,
        {
            let ghost before = self.mem();
            if self.check_used(i) {
                self.erase_cluster(i)?;
                proof {
                    if old(self).healthy() {
                        lemma_cl_update(before, g, i as int, crate::format::ff(4096));
                        lemma_ff_cluster(self.mem(), g, i as int);
                        assert forall|c: int| 0 <= c < i implies #[trigger] word0(self.mem(), g, c) != MAGIC && word0(self.mem(), g, c) != CONT_B by {
                            assert(cl(self.mem(), g, c) == cl(before, g, c));
                            assert(word0(before, g, c) != MAGIC && word0(before, g, c) != CONT_B);
                        }
                    }
                }
            }
            i = i + 1;
        }
        let ghost m_end = self.mem();
        proof {
            if old(self).healthy() {
                assert forall|c: int| 0 <= c < g.n implies #[trigger] word0(m_end, g, c) != MAGIC && word0(m_end, g, c) != CONT_B by {
                    assert(c < i);
                }
                assert(blank(m_end, g));
            }
        }
        self.v1_used = Vec::new();
        assert(self.mem() == m_end);
        proof {
            if old(self).healthy() {
                lemma_blank(m_end, g, Seq::empty());
                assert forall|x: Seq<u8>| #[trigger] read_result(m_end, g, x) == Err::<Seq<u8>, StoreError>(StoreError::NotFound) by {
                    lemma_blank(m_end, g, x);
                }
            }
        }
        Ok(())
    }
}

// ============================ healing at start-up ============================

/// The header in cluster `i` starts a whole chain of distinct clusters.
pub open spec fn valid_at(mem: Seq<u8>, g: Geo, i: int) -> bool {
    &&& header_at(mem, g, i) is Some
    &&& chain_good(mem, g, found_at(mem, g, i))
    &&& file_chain(mem, g, i).no_duplicates()
}

impl<F: Flash> Store<F> {
    /// The clusters of the file whose header is in `first_cluster`, when its chain is
    /// whole: as long as the header says, linked without a break or a loop, the later
    /// clusters all continuation clusters.
    fn validate_chain(&mut self, first_cluster: u32, header: &ParsedHeader) -> (r: Option<Vec<u32>>)
        requires
            old(self).inv(),
            first_cluster < old(self).geo().n,
            header.name_len <= MAX_NAME_LEN,
            header.data_len <= u32::MAX,
        ensures
            final(self).same(old(self)),
            r matches Some(v) ==> good_clusters(old(self).geo(), v@) && v@.len() >= 1 && v@[0] == first_cluster,
            old(self).healthy() && header_at(old(self).mem(), old(self).geo(), first_cluster as int) == Some(*header) ==> {
                &&& (r is Some <==> valid_at(old(self).mem(), old(self).geo(), first_cluster as int))
                &&& r matches Some(v) ==> v@ == file_chain(old(self).mem(), old(self).geo(), first_cluster as int)
            },
    {
        let ghost mem = self.mem();
        let ghost g = self.geo();
        let ghost good = self.healthy() && header_at(mem, g, first_cluster as int) == Some(*header);
        let expected = need_clusters(header.name_len, header.data_len);
        let ghost q = expected as nat;
        let ghost f = found_at(mem, g, first_cluster as int);
        let mut links: Vec<u32> = Vec::new();
        links.push(first_cluster);
        let mut cur = first_cluster;
        assert(links@ =~= seq![first_cluster]);
        proof {
            if good {
                assert(need_of(f.header) == q);
            }
        }
        loop
            invariant
                self.same(old(self)),
                old(self).inv(),
                mem == self.mem(),
                g == self.geo(),
                good == (old(self).healthy() && header_at(mem, g, first_cluster as int) == Some(*header)),
                f == found_at(mem, g, first_cluster as int),
                good ==> need_of(f.header) == q,
                q == expected,
                q >= 1,
                1 <= links@.len() <= q,
                links@[0] == first_cluster,
                links@.last() == cur,
                good_clusters(g, links@),
                good ==> chain(mem, g, first_cluster, links@.len() as nat) == Some(links@),
                good ==> forall|j: int| 1 <= j < links@.len() ==> word0(mem, g, #[trigger] links@[j] as int) == CONT_B,
            decreases q - links@.len(),
        {
            proof {
                self.lemma_healthy_frame(old(self));
            }
            let tail = match self.read_tail(cur) {
                Ok(t) => t,
                Err(_) => {
                    return None;
                },
            };
            let ghost len = links@.len();
            match chain_next(tail.as_slice(), self.flash_addr, self.cluster_max_quantity) {
                ChainNext::End => {
                    if (links.len() as u32) == expected {
                        proof {
                            if good {
                                assert(links@.no_duplicates());
                                assert(valid_at(mem, g, first_cluster as int));
                            }
                        }
                        return Some(links);
                    }
                    proof {
                        if good && valid_at(mem, g, first_cluster as int) {
                            lemma_chain_prefix(mem, g, first_cluster, q, len);
                            lemma_chain_links(mem, g, first_cluster, q, len - 1);
                        }
                    }
                    return None;
                },
                ChainNext::Broken => {
                    proof {
                        if good && valid_at(mem, g, first_cluster as int) {
                            lemma_chain_prefix(mem, g, first_cluster, q, len);
                            if len < q {
                                lemma_chain_links(mem, g, first_cluster, q, len - 1);
                            }
                        }
                    }
                    return None;
                },
                ChainNext::Next(nx) => {
                    if (links.len() as u32) >= expected || contains_u32(&links, nx) {
                        proof {
                            if good && valid_at(mem, g, first_cluster as int) {
                                lemma_chain_prefix(mem, g, first_cluster, q, len);
                                if len < q {
                                    lemma_chain_links(mem, g, first_cluster, q, len - 1);
                                    let full = file_chain(mem, g, first_cluster as int);
                                    let t = choose|t: int| 0 <= t < links@.len() && links@[t] == nx;
                                    assert(full[t] == links@[t]);
                                    assert(full[len as int] == nx);
                                }
                            }
                        }
                        return None;
                    }
                    let w = match self.read_first_word(nx) {
                        Ok(w) => w,
                        Err(_) => {
                            return None;
                        },
                    };
                    if w != CONT_B {
                        proof {
                            if good && valid_at(mem, g, first_cluster as int) {
                                lemma_chain_prefix(mem, g, first_cluster, q, len);
                                lemma_chain_links(mem, g, first_cluster, q, len - 1);
                                let full = file_chain(mem, g, first_cluster as int);
                                assert(full[len as int] == nx);
                            }
                        }
                        return None;
                    }
                    let ghost before = links@;
                    links.push(nx);
                    cur = nx;
                    proof {
                        assert forall|a: int, b: int| 0 <= a < b < links@.len() implies links@[a] != links@[b] by {
                            if b == links@.len() - 1 {
                                assert(before.contains(links@[a]));
                            } else {
                                assert(before[a] != before[b]);
                            }
                        }
                        if good {
                            assert(before.last() == links@[len - 1]);
                            assert(chain(mem, g, first_cluster, links@.len() as nat) == Some(links@));
                            assert forall|j: int| 1 <= j < links@.len() implies word0(mem, g, #[trigger] links@[j] as int) == CONT_B by {
                                if j < len {
                                    assert(links@[j] == before[j]);
                                }
                            }
                        }
                    }
                },
            }
        }
    }
}


/// The headers named `name` among the first `k` clusters that start whole chains, in
/// cluster order.
pub open spec fn valid_upto(mem: Seq<u8>, g: Geo, name: Seq<u8>, k: nat) -> Seq<FoundFile>
    decreases k,
{
    if k == 0 {
        Seq::empty()
    } else {
        let prev = valid_upto(mem, g, name, (k - 1) as nat);
        if is_copy(mem, g, k - 1, name) && valid_at(mem, g, k - 1) {
            prev.push(found_at(mem, g, k - 1))
        } else {
            prev
        }
    }
}

/// The distinct names of the headers among the first `k` clusters that start whole
/// chains, in cluster order.
pub open spec fn valid_names(mem: Seq<u8>, g: Geo, k: nat) -> Seq<Seq<u8>>
    decreases k,
{
    if k == 0 {
        Seq::empty()
    } else {
        let prev = valid_names(mem, g, (k - 1) as nat);
        if valid_at(mem, g, k - 1) && !prev.contains(name_at(mem, g, k - 1)) {
            prev.push(name_at(mem, g, k - 1))
        } else {
            prev
        }
    }
}

/// The copy of `name` that healing keeps: the newest of those that start whole chains.
pub open spec fn winner(mem: Seq<u8>, g: Geo, name: Seq<u8>) -> Option<FoundFile> {
    newest_of(valid_upto(mem, g, name, g.n as nat))
}

/// Cluster `c` belongs to the chain of a copy that healing keeps.
pub open spec fn heal_kept(mem: Seq<u8>, g: Geo, c: u32) -> bool {
    exists|i: int|
        0 <= i < g.n && valid_at(mem, g, i) && winner(mem, g, name_at(mem, g, i)) == Some(found_at(mem, g, i))
            && #[trigger] file_chain(mem, g, i).contains(c)
}

/// What healing leaves in cluster `c`: a header or continuation cluster outside every
/// kept chain is erased, anything else stays.
pub open spec fn healed(mem: Seq<u8>, g: Geo, c: int) -> Seq<u8> {
    if (word0(mem, g, c) == MAGIC || word0(mem, g, c) == CONT_B) && !heal_kept(mem, g, c as u32) {
        crate::format::ff(4096)
    } else {
        cl(mem, g, c)
    }
}

/// The copies of a name that start whole chains are headers of that name, in
/// increasing cluster order.
pub proof fn lemma_valid_members(mem: Seq<u8>, g: Geo, name: Seq<u8>, k: nat)
    requires
        k <= g.n,
    ensures
        forall|j: int| 0 <= j < valid_upto(mem, g, name, k).len() ==> {
            let f = #[trigger] valid_upto(mem, g, name, k)[j];
            &&& f.first_cluster < k
            &&& valid_at(mem, g, f.first_cluster as int)
            &&& is_copy(mem, g, f.first_cluster as int, name)
            &&& f == found_at(mem, g, f.first_cluster as int)
        },
    decreases k,
{
    if k > 0 {
        lemma_valid_members(mem, g, name, (k - 1) as nat);
        let prev = valid_upto(mem, g, name, (k - 1) as nat);
        let cur = valid_upto(mem, g, name, k);
        assert forall|j: int| 0 <= j < cur.len() implies {
            let f = #[trigger] cur[j];
            &&& f.first_cluster < k
            &&& valid_at(mem, g, f.first_cluster as int)
            &&& is_copy(mem, g, f.first_cluster as int, name)
            &&& f == found_at(mem, g, f.first_cluster as int)
        } by {
            if j < prev.len() {
                assert(cur[j] == prev[j]);
            }
        }
    }
}

/// The names that start whole chains are distinct, and a name is among them exactly
/// when it has a copy that starts a whole chain.
pub proof fn lemma_valid_names(mem: Seq<u8>, g: Geo, k: nat)
    ensures
        valid_names(mem, g, k).no_duplicates(),
        forall|x: Seq<u8>| #[trigger] valid_names(mem, g, k).contains(x) <==> valid_upto(mem, g, x, k).len() > 0,
    decreases k,
{
    if k > 0 {
        lemma_valid_names(mem, g, (k - 1) as nat);
        let prev = valid_names(mem, g, (k - 1) as nat);
        let cur = valid_names(mem, g, k);
        assert forall|x: Seq<u8>| #[trigger] cur.contains(x) <==> valid_upto(mem, g, x, k).len() > 0 by {
            if cur.contains(x) && !prev.contains(x) {
                assert(cur.last() == x) by {
                    let t = choose|t: int| 0 <= t < cur.len() && cur[t] == x;
                    if t < prev.len() {
                        assert(prev[t] == x);
                    }
                }
            }
            if prev.contains(x) {
                let t = choose|t: int| 0 <= t < prev.len() && prev[t] == x;
                if valid_at(mem, g, k - 1) && !prev.contains(name_at(mem, g, k - 1)) {
                    assert(cur[t] == x);
                }
            }
            if valid_upto(mem, g, x, k).len() > 0 && valid_upto(mem, g, x, (k - 1) as nat).len() == 0 {
                assert(is_copy(mem, g, k - 1, x) && valid_at(mem, g, k - 1));
                if !prev.contains(x) {
                    assert(cur.last() == x);
                }
            }
        }
        if valid_at(mem, g, k - 1) && !prev.contains(name_at(mem, g, k - 1)) {
            assert forall|a: int, b: int| 0 <= a < b < cur.len() implies cur[a] != cur[b] by {
                if b == cur.len() - 1 {
                    assert(prev.contains(cur[a]));
                }
            }
        }
    }
}

/// The copy of a file that healing keeps, as a record of its name, generation, header
/// cluster and chain.
struct Kept {
    name: Vec<u8>,
    generation: u32,
    first: u32,
    chain: Vec<u32>,
}

/// `kept` holds, for each name that starts a whole chain among the first `k`
/// clusters, the newest such copy so far, with its chain.
spec fn kept_ok(mem: Seq<u8>, g: Geo, kept: Seq<Kept>, k: nat) -> bool {
    let names = valid_names(mem, g, k);
    &&& kept.len() == names.len()
    &&& forall|t: int| 0 <= t < kept.len() ==> {
        let e = #[trigger] kept[t];
        &&& e.name@ == names[t]
        &&& e.first < g.n
        &&& newest_of(valid_upto(mem, g, names[t], k)) == Some(found_at(mem, g, e.first as int))
        &&& e.generation == header_at(mem, g, e.first as int).unwrap().generation
        &&& e.chain@ == file_chain(mem, g, e.first as int)
    }
}

/// Where the record for `name` is in `kept`.
fn kept_position(kept: &Vec<Kept>, name: &[u8]) -> (r: Option<usize>)
    ensures
        match r {
            Some(p) => p < kept@.len() && kept@[p as int].name@ == name@,
            None => forall|t: int| 0 <= t < kept@.len() ==> #[trigger] kept@[t].name@ != name@,
        },
{
    let mut t: usize = 0;
    while t < kept.len()
        invariant
            t <= kept@.len(),
            forall|j: int| 0 <= j < t ==> #[trigger] kept@[j].name@ != name@,
        decreases kept@.len() - t,
    {
        if bytes_eq(kept[t].name.as_slice(), name) {
            return Some(t);
        }
        t = t + 1;
    }
    None
}

/// A cluster that does not start a whole chain leaves the records as they are.
proof fn lemma_kept_same(mem: Seq<u8>, g: Geo, kept: Seq<Kept>, i: nat)
    requires
        i < g.n,
        kept_ok(mem, g, kept, i),
        !valid_at(mem, g, i as int),
    ensures
        kept_ok(mem, g, kept, i + 1),
{
    assert(valid_names(mem, g, i + 1) == valid_names(mem, g, i));
    assert forall|t: int| 0 <= t < kept.len() implies valid_upto(mem, g, #[trigger] kept[t].name@, i + 1) == valid_upto(mem, g, kept[t].name@, i) by {
    }
}

/// A cluster that starts a whole chain under a name not seen yet adds a record.
proof fn lemma_kept_new(mem: Seq<u8>, g: Geo, kept: Seq<Kept>, i: nat, e: Kept)
    requires
        i < g.n,
        kept_ok(mem, g, kept, i),
        valid_at(mem, g, i as int),
        forall|t: int| 0 <= t < kept.len() ==> #[trigger] kept[t].name@ != name_at(mem, g, i as int),
        e.name@ == name_at(mem, g, i as int),
        e.first == i,
        e.generation == header_at(mem, g, i as int).unwrap().generation,
        e.chain@ == file_chain(mem, g, i as int),
    ensures
        kept_ok(mem, g, kept.push(e), i + 1),
{
    let names = valid_names(mem, g, i);
    let x = name_at(mem, g, i as int);
    assert(!names.contains(x)) by {
        if names.contains(x) {
            let t = choose|t: int| 0 <= t < names.len() && names[t] == x;
            assert(kept[t].name@ == names[t]);
        }
    }
    lemma_valid_names(mem, g, i);
    assert(valid_upto(mem, g, x, i).len() == 0);
    assert(is_copy(mem, g, i as int, x));
    let one = valid_upto(mem, g, x, i + 1);
    assert(one == seq![found_at(mem, g, i as int)]);
    assert(one.drop_last() =~= Seq::<FoundFile>::empty());
    assert(newest_of(Seq::<FoundFile>::empty()) is None);
    assert(newest_of(one) == Some(found_at(mem, g, i as int)));
    let k2 = kept.push(e);
    assert forall|t: int| 0 <= t < kept.len() implies valid_upto(mem, g, #[trigger] kept[t].name@, i + 1) == valid_upto(mem, g, kept[t].name@, i) by {
        assert(kept[t].name@ != x);
        assert(!is_copy(mem, g, i as int, kept[t].name@));
    }
    assert forall|t: int| 0 <= t < k2.len() implies {
        let e2 = #[trigger] k2[t];
        &&& e2.name@ == valid_names(mem, g, i + 1)[t]
        &&& e2.first < g.n
        &&& newest_of(valid_upto(mem, g, valid_names(mem, g, i + 1)[t], i + 1)) == Some(found_at(mem, g, e2.first as int))
        &&& e2.generation == header_at(mem, g, e2.first as int).unwrap().generation
        &&& e2.chain@ == file_chain(mem, g, e2.first as int)
    } by {
        if t < kept.len() {
            assert(k2[t] == kept[t]);
            assert(valid_names(mem, g, i + 1)[t] == names[t]);
        }
    }
}

/// A cluster that starts a whole chain under a name seen before replaces the record
/// when its generation is newer.
proof fn lemma_kept_update(mem: Seq<u8>, g: Geo, kept: Seq<Kept>, i: nat, p: int, e: Kept)
    requires
        i < g.n,
        kept_ok(mem, g, kept, i),
        valid_at(mem, g, i as int),
        0 <= p < kept.len(),
        kept[p].name@ == name_at(mem, g, i as int),
        e.name@ == name_at(mem, g, i as int),
        e.first == i,
        e.generation == header_at(mem, g, i as int).unwrap().generation,
        e.chain@ == file_chain(mem, g, i as int),
    ensures
        kept_ok(mem, g, if spec_gen_newer(e.generation, kept[p].generation) {
            kept.update(p, e)
        } else {
            kept
        }, i + 1),
{
    let names = valid_names(mem, g, i);
    let x = name_at(mem, g, i as int);
    assert(names[p] == x);
    assert(names.contains(x));
    assert(valid_names(mem, g, i + 1) == names);
    lemma_valid_names(mem, g, i);
    let vs = valid_upto(mem, g, x, i);
    assert(is_copy(mem, g, i as int, x));
    let vs2 = valid_upto(mem, g, x, i + 1);
    assert(vs2 == vs.push(found_at(mem, g, i as int)));
    assert(vs2.drop_last() =~= vs);
    assert(vs2.last() == found_at(mem, g, i as int));
    let k2 = if spec_gen_newer(e.generation, kept[p].generation) {
        kept.update(p, e)
    } else {
        kept
    };
    assert forall|t: int| 0 <= t < k2.len() implies {
        let e2 = #[trigger] k2[t];
        &&& e2.name@ == valid_names(mem, g, i + 1)[t]
        &&& e2.first < g.n
        &&& newest_of(valid_upto(mem, g, valid_names(mem, g, i + 1)[t], i + 1)) == Some(found_at(mem, g, e2.first as int))
        &&& e2.generation == header_at(mem, g, e2.first as int).unwrap().generation
        &&& e2.chain@ == file_chain(mem, g, e2.first as int)
    } by {
        if t != p {
            assert(k2[t] == kept[t]);
            lemma_valid_names(mem, g, i);
            assert(names[t] != names[p]);
            assert(!is_copy(mem, g, i as int, names[t]));
        }
    }
}

/// The records cover exactly the clusters that healing keeps.
proof fn lemma_kept_covers(mem: Seq<u8>, g: Geo, kept: Seq<Kept>, c: u32)
    requires
        kept_ok(mem, g, kept, g.n as nat),
    ensures
        (exists|u: int| 0 <= u < kept.len() && #[trigger] kept[u].chain@.contains(c)) <==> heal_kept(mem, g, c),
{
    let names = valid_names(mem, g, g.n as nat);
    lemma_valid_names(mem, g, g.n as nat);
    if exists|u: int| 0 <= u < kept.len() && #[trigger] kept[u].chain@.contains(c) {
        let u = choose|u: int| 0 <= u < kept.len() && #[trigger] kept[u].chain@.contains(c);
        let e = kept[u];
        let i = e.first as int;
        let vs = valid_upto(mem, g, names[u], g.n as nat);
        lemma_newest_in(vs);
        lemma_valid_members(mem, g, names[u], g.n as nat);
        let j = choose|j: int| 0 <= j < vs.len() && vs[j] == found_at(mem, g, i);
        assert(vs[j].first_cluster == i as u32);
        assert(valid_at(mem, g, i));
        assert(is_copy(mem, g, i, names[u]));
        assert(winner(mem, g, name_at(mem, g, i)) == Some(found_at(mem, g, i)));
        assert(file_chain(mem, g, i).contains(c));
    }
    if heal_kept(mem, g, c) {
        let i = choose|i: int|
            0 <= i < g.n && valid_at(mem, g, i) && winner(mem, g, name_at(mem, g, i)) == Some(found_at(mem, g, i))
                && #[trigger] file_chain(mem, g, i).contains(c);
        let x = name_at(mem, g, i);
        let vs = valid_upto(mem, g, x, g.n as nat);
        assert(vs.len() > 0);
        assert(names.contains(x));
        let u = choose|u: int| 0 <= u < names.len() && names[u] == x;
        let e = kept[u];
        assert(e.name@ == names[u]);
        assert(found_at(mem, g, e.first as int) == found_at(mem, g, i));
        assert(e.first == i);
        assert(kept[u].chain@.contains(c));
    }
}

impl<F: Flash> Store<F> {
    /// Reclaims what interrupted writes left behind: continuation clusters whose header
    /// never landed, headers that are damaged or whose chain is not whole, and older
    /// copies of a name when a power loss left two (the newest generation stays).
    ///
    /// Clusters that cannot be read are left alone; erasing is best effort.
    fn heal(&mut self)
        requires
            old(self).inv(),
        ensures
            final(self).inv(),
            final(self).frame(old(self)),
            old(self).healthy() ==> forall|c: int|
                0 <= c < old(self).geo().n ==> #[trigger] cl(final(self).mem(), old(self).geo(), c) == healed(old(self).mem(), old(self).geo(), c),
    {
        let ghost mem = self.mem();
        let ghost g = self.geo();
        let ghost h = self.healthy();
        let n = self.cluster_max_quantity;
        let mut used: Vec<bool> = vec![false; n as usize];
        let mut keep: Vec<bool> = vec![false; n as usize];
        let mut kept: Vec<Kept> = Vec::new();
        let mut i: u32 = 0;
        while i < n
            invariant
                self.same(old(self)),
                old(self).inv(),
                mem == self.mem(),
                g == self.geo(),
                n == g.n,
                h == old(self).healthy(),
                i <= n,
                used@.len() == n,
                keep@.len() == n,
                forall|t: int| 0 <= t < kept@.len() ==> (#[trigger] kept@[t]).first < n && good_clusters(g, kept@[t].chain@),
                h ==> forall|c: int| 0 <= c < n ==> #[trigger] used@[c] == (c < i && (word0(mem, g, c) == MAGIC || word0(mem, g, c) == CONT_B)),
                h ==> forall|c: int| 0 <= c < n ==> !#[trigger] keep@[c],
                h ==> kept_ok(mem, g, kept@, i as nat),
            decreases n - i,
        {
            proof {
                self.lemma_healthy_frame(old(self));
            }
            match self.read_first_word(i) {
                Err(_) => {
                    used.set(i as usize, true);
                    keep.set(i as usize, true);
                },
                Ok(word) => {
                    if word != MAGIC && word != CONT_B {
                        proof {
                            if h {
                                if header_at(mem, g, i as int) is Some {
                                    lemma_header_magic(mem, g, i as int);
                                }
                                lemma_kept_same(mem, g, kept@, i as nat);
                            }
                        }
                    } else {
                        used.set(i as usize, true);
                        if word != MAGIC {
                            proof {
                                if h {
                                    if header_at(mem, g, i as int) is Some {
                                        lemma_header_magic(mem, g, i as int);
                                    }
                                    lemma_kept_same(mem, g, kept@, i as nat);
                                }
                            }
                        } else {
                            match self.read_cluster(i) {
                                Err(_) => {
                                    keep.set(i as usize, true);
                                },
                                Ok(buf) => {
                                    match parse_header(buf.as_slice(), self.flash_size) {
                                        None => {
                                            proof {
                                                if h {
                                                    lemma_kept_same(mem, g, kept@, i as nat);
                                                }
                                            }
                                        },
                                        Some(header) => {
                                            match self.validate_chain(i, &header) {
                                                None => {
                                                    proof {
                                                        if h {
                                                            lemma_kept_same(mem, g, kept@, i as nat);
                                                        }
                                                    }
                                                },
                                                Some(chain) => {
                                                    let name_end = crate::format::HEADER_FIXED + header.name_len;
                                                    let name = slice_range(buf.as_slice(), crate::format::HEADER_FIXED, name_end);
                                                    let e = Kept {
                                                        name: vstd::slice::slice_to_vec(name),
                                                        generation: header.generation,
                                                        first: i,
                                                        chain,
                                                    };
                                                    match kept_position(&kept, name) {
                                                        None => {
                                                            proof {
                                                                if h {
                                                                    lemma_kept_new(mem, g, kept@, i as nat, e);
                                                                }
                                                            }
                                                            kept.push(e);
                                                        },
                                                        Some(p) => {
                                                            proof {
                                                                if h {
                                                                    lemma_kept_update(mem, g, kept@, i as nat, p as int, e);
                                                                }
                                                            }
                                                            if gen_newer(header.generation, kept[p].generation) {
                                                                kept.set(p, e);
                                                            }
                                                        },
                                                    }
                                                },
                                            }
                                        },
                                    }
                                },
                            }
                        }
                    }
                },
            }
            i = i + 1;
        }
        let mut t: usize = 0;
        while t < kept.len()
            invariant
                t <= kept@.len(),
                keep@.len() == n,
                n == g.n,
                forall|u: int| 0 <= u < kept@.len() ==> (#[trigger] kept@[u]).first < n && good_clusters(g, kept@[u].chain@),
                h ==> forall|c: int| 0 <= c < n ==> #[trigger] keep@[c] == (exists|u: int| 0 <= u < t && #[trigger] kept@[u].chain@.contains(c as u32)),
            decreases kept@.len() - t,
        {
            let mut j: usize = 0;
            while j < kept[t].chain.len()
                invariant
                    t < kept@.len(),
                    j <= kept@[t as int].chain@.len(),
                    keep@.len() == n,
                    n == g.n,
                    forall|u: int| 0 <= u < kept@.len() ==> (#[trigger] kept@[u]).first < n && good_clusters(g, kept@[u].chain@),
                    h ==> forall|c: int| 0 <= c < n ==> #[trigger] keep@[c] == ((exists|u: int| 0 <= u < t && #[trigger] kept@[u].chain@.contains(c as u32))
                        || kept@[t as int].chain@.take(j as int).contains(c as u32)),
                decreases kept@[t as int].chain@.len() - j,
            {
                let c = kept[t].chain[j];
                assert(c < n);
                let ghost before = keep@;
                keep.set(c as usize, true);
                proof {
                    if h {
                        let ch = kept@[t as int].chain@;
                        let t1 = ch.take(j + 1);
                        let t0 = ch.take(j as int);
                        assert(t1 =~= t0.push(c));
                        assert forall|x: int| 0 <= x < n implies #[trigger] keep@[x] == ((exists|u: int| 0 <= u < t && #[trigger] kept@[u].chain@.contains(x as u32))
                            || t1.contains(x as u32)) by {
                            if x != c as int {
                                assert(keep@[x] == before[x]);
                                if t1.contains(x as u32) {
                                    let v = choose|v: int| 0 <= v < j + 1 && t1[v] == x as u32;
                                    assert(v < j);
                                    assert(t0[v] == x as u32);
                                }
                                if t0.contains(x as u32) {
                                    let v = choose|v: int| 0 <= v < j && t0[v] == x as u32;
                                    assert(t1[v] == x as u32);
                                }
                            } else {
                                assert(t1[j as int] == c);
                            }
                        }
                    }
                }
                j = j + 1;
            }
            proof {
                if h {
                    let ch = kept@[t as int].chain@;
                    assert(ch.take(ch.len() as int) =~= ch);
                    assert forall|x: int| 0 <= x < n implies #[trigger] keep@[x] == (exists|u: int| 0 <= u < t + 1 && #[trigger] kept@[u].chain@.contains(x as u32)) by {
                        if ch.contains(x as u32) {
                            assert(kept@[t as int].chain@.contains(x as u32));
                        }
                        if exists|u: int| 0 <= u < t + 1 && #[trigger] kept@[u].chain@.contains(x as u32) {
                            let u = choose|u: int| 0 <= u < t + 1 && #[trigger] kept@[u].chain@.contains(x as u32);
                            if u < t {
                                assert(exists|u2: int| 0 <= u2 < t && #[trigger] kept@[u2].chain@.contains(x as u32));
                            }
                        }
                    }
                }
            }
            t = t + 1;
        }
        proof {
            if h {
                assert forall|c: int| 0 <= c < n implies #[trigger] keep@[c] == heal_kept(mem, g, c as u32) by {
                    lemma_kept_covers(mem, g, kept@, c as u32);
                }
            }
        }
        let mut i: u32 = 0;
        while i < n
            invariant
                self.inv(),
                self.frame(old(self)),
                old(self).inv(),
                g == self.geo(),
                n == g.n,
                i <= n,
                used@.len() == n,
                keep@.len() == n,
                h == old(self).healthy(),
                h ==> self.healthy(),
                h ==> forall|c: int| 0 <= c < n ==> #[trigger] used@[c] == (word0(mem, g, c) == MAGIC || word0(mem, g, c) == CONT_B),
                h ==> forall|c: int| 0 <= c < n ==> #[trigger] keep@[c] == heal_kept(mem, g, c as u32),
                h ==> forall|c: int| 0 <= c < n ==> #[trigger] cl(self.mem(), g, c) == (if c < i && used@[c] && !keep@[c] {
                    crate::format::ff(4096)
                } else {
                    cl(mem, g, c)
                }),
            decreases n - i,
        {
            if used[i as usize] && !keep[i as usize] {
                let ghost before = self.mem();
                let _ = self.erase_cluster(i);
                proof {
                    if h {
                        lemma_cl_update(before, g, i as int, crate::format::ff(4096));
                    }
                }
            }
            i = i + 1;
        }
    }
}

// ============================ the older format ============================

/// A first cluster of the older format has a file start after its padding.
pub open spec fn v1_start_ok(buf: Seq<u8>) -> bool {
    exists|i: int| #[trigger] crate::v1::ff_run_end(buf, i) && i + 4 <= buf.len() && spec_word(buf, i) == crate::v1::V1_MAGIC
}

/// Cluster `i` holds data of the older format: its first word is one of that format's
/// marks, or it starts with padding that a file start follows.
pub open spec fn looks_v1(mem: Seq<u8>, g: Geo, i: int) -> bool {
    let w = word0(mem, g, i);
    w == crate::v1::V1_MAGIC || w == crate::v1::V1_CONT_B || (cl(mem, g, i)[0] == 0xFFu8 && v1_start_ok(cl(mem, g, i)))
}

/// The map of the clusters of the older format: one flag per cluster, or nothing when
/// no cluster holds such data.
pub open spec fn v1_scan(mem: Seq<u8>, g: Geo) -> Seq<bool> {
    if exists|i: int| 0 <= i < g.n && #[trigger] looks_v1(mem, g, i) {
        Seq::new(g.n as nat, |i: int| looks_v1(mem, g, i))
    } else {
        Seq::empty()
    }
}

/// The last taken cluster among the first `k`.
pub open spec fn last_used(mem: Seq<u8>, g: Geo, v1: Seq<bool>, k: nat) -> Option<nat>
    decreases k,
{
    if k == 0 {
        None
    } else if used_at(mem, g, v1, k - 1) {
        Some((k - 1) as nat)
    } else {
        last_used(mem, g, v1, (k - 1) as nat)
    }
}

/// The last taken cluster is one of those looked at.
proof fn lemma_last_used_bound(mem: Seq<u8>, g: Geo, v1: Seq<bool>, k: nat)
    ensures
        last_used(mem, g, v1, k) matches Some(x) ==> x < k,
    decreases k,
{
    if k > 0 {
        lemma_last_used_bound(mem, g, v1, (k - 1) as nat);
    }
}

impl<F: Flash> Store<F> {
    /// Marks the clusters that hold data of the older format. A single-cluster file of
    /// that format has padding of `0xFF` bytes before it, so a cluster that starts with
    /// `0xFF` is read whole to tell such a file from an erased cluster.
    fn scan_v1(&mut self)
        requires
            old(self).inv(),
        ensures
            final(self).inv(),
            final(self).same_but_v1(old(self)),
            old(self).healthy() ==> final(self).v1_map() == v1_scan(old(self).mem(), old(self).geo()),
    {
        let ghost mem = self.mem();
        let ghost g = self.geo();
        let ghost h = self.healthy();
        let n = self.cluster_max_quantity;
        let mut map: Vec<bool> = vec![false; n as usize];
        let mut any = false;
        let mut i: u32 = 0;
        while i < n
            invariant
                self.same(old(self)),
                old(self).inv(),
                mem == self.mem(),
                g == self.geo(),
                n == g.n,
                h == old(self).healthy(),
                i <= n,
                map@.len() == n,
                h ==> forall|c: int| 0 <= c < n ==> #[trigger] map@[c] == (c < i && looks_v1(mem, g, c)),
                h ==> (any <==> exists|c: int| 0 <= c < i && #[trigger] looks_v1(mem, g, c)),
            decreases n - i,
        {
            proof {
                self.lemma_healthy_frame(old(self));
            }
            if let Ok(word) = self.read_first_word(i) {
                let is_v1 = if word == crate::v1::V1_MAGIC || word == crate::v1::V1_CONT_B {
                    true
                } else if #[verifier::truncate] ((word >> 24) as u8) == 0xFF {
                    match self.read_cluster(i) {
                        Ok(buf) => crate::v1::find_v1_file_start(buf.as_slice()).is_some(),
                        Err(_) => false,
                    }
                } else {
                    false
                };
                proof {
                    if h {
                        let c = cl(mem, g, i as int);
                        crate::format::lemma_word_top(c, 0);
                        if v1_start_ok(c) {
                            let k = choose|k: int| #[trigger] crate::v1::ff_run_end(c, k) && k + 4 <= c.len() && spec_word(c, k) == crate::v1::V1_MAGIC;
                        }
                        assert(is_v1 == looks_v1(mem, g, i as int));
                    }
                }
                if is_v1 {
                    map.set(i as usize, true);
                    any = true;
                }
            }
            i = i + 1;
        }
        self.v1_used = if any {
            map
        } else {
            Vec::new()
        };
        proof {
            if h {
                if any {
                    assert(self.v1_used@ =~= Seq::new(g.n as nat, |c: int| looks_v1(mem, g, c)));
                }
            }
        }
    }

    /// Where the allocator starts after a restart: one past the last taken cluster
    /// (wrapping), or 0 when no cluster is taken, so that wear does not pile up at the
    /// low addresses.
    fn init_cursor(&mut self) -> (r: u32)
        requires
            old(self).inv(),
        ensures
            final(self).same(old(self)),
            r < old(self).geo().n,
            old(self).healthy() ==> r == (match last_used(old(self).mem(), old(self).geo(), old(self).v1_map(), old(self).geo().n as nat) {
                Some(h) => ((h + 1) as int % (old(self).geo().n as int)) as u32,
                None => 0u32,
            }),
    {
        let n = self.cluster_max_quantity;
        let mut highest: Option<u32> = None;
        let mut i: u32 = 0;
        while i < n
            invariant
                self.same(old(self)),
                old(self).inv(),
                n == old(self).geo().n,
                i <= n,
                highest matches Some(x) ==> x < i,
                old(self).healthy() ==> highest == (match last_used(old(self).mem(), old(self).geo(), old(self).v1_map(), i as nat) {
                    Some(x) => Some(x as u32),
                    None => None::<u32>,
                }),
            decreases n - i,
        {
            proof {
                self.lemma_healthy_frame(old(self));
            }
            if self.check_used(i) {
                highest = Some(i);
            }
            i = i + 1;
        }
        proof {
            if old(self).healthy() {
                if let Some(x) = highest {
                    let hx = last_used(old(self).mem(), old(self).geo(), old(self).v1_map(), n as nat).unwrap();
                    assert(hx < n) by {
                        lemma_last_used_bound(old(self).mem(), old(self).geo(), old(self).v1_map(), n as nat);
                    }
                    assert(x == hx);
                }
            }
        }
        match highest {
            Some(x) => (x + 1) % n,
            None => 0,
        }
    }
}

/// The payload bytes that the `k`-th cluster `c` of a file of the older format with
/// header `h` holds, after `sofar` bytes were gathered: from the file start up to byte
/// 4088 in the first cluster, from byte 8 in each later one, and no more than the
/// payload has left.
pub open spec fn v1_piece(mem: Seq<u8>, g: Geo, h: crate::v1::V1Header, c: u32, k: nat, sofar: nat) -> Seq<u8> {
    let total = crate::v1::spec_payload_len(h.name_len as nat, h.data_len as nat);
    let start: int = if k == 0 {
        h.start as int
    } else {
        8
    };
    let cap: int = if k == 0 {
        4088 - h.start
    } else {
        4080
    };
    let left: int = total - sofar;
    let take: int = if left < cap {
        left
    } else {
        cap
    };
    cl(mem, g, c as int).subrange(start, start + take)
}

/// The payload gathered from the first `k` clusters of `chain`.
pub open spec fn v1_gather(mem: Seq<u8>, g: Geo, h: crate::v1::V1Header, chain: Seq<u32>, k: nat) -> Seq<u8>
    decreases k,
{
    if k == 0 {
        Seq::empty()
    } else {
        let prev = v1_gather(mem, g, h, chain, (k - 1) as nat);
        prev + v1_piece(mem, g, h, chain[k - 1], (k - 1) as nat, prev.len())
    }
}

/// The name and data of a file of the older format whose header `h` is in cluster
/// `first` and whose payload lies along `chain`: the header parses, the later clusters
/// are continuation clusters, the payload is whole and its data matches its CRC.
pub open spec fn v1_file_data(mem: Seq<u8>, g: Geo, first: u32, h: crate::v1::V1Header, chain: Seq<u32>) -> Option<(Seq<u8>, Seq<u8>)> {
    let p = v1_gather(mem, g, h, chain, chain.len());
    if first < g.n && chain.len() >= 1 && chain[0] == first && (forall|k: int| 0 <= k < chain.len() ==> #[trigger] chain[k] < g.n)
        && (forall|k: int| 1 <= k < chain.len() ==> word0(mem, g, #[trigger] chain[k] as int) == crate::v1::V1_CONT_B)
        && crate::v1::spec_parse_v1_header(cl(mem, g, first as int), h.start as int, g.size as int) == Some(h)
        && p.len() == crate::v1::spec_payload_len(h.name_len as nat, h.data_len as nat)
        && crate::v1::spec_split_v1_payload(p, h) is Some {
        let (ds, de) = crate::v1::spec_split_v1_payload(p, h).unwrap();
        Some((p.subrange(16, 16 + h.name_len), p.subrange(ds as int, de as int)))
    } else {
        None
    }
}

/// Some file of the older format in the partition is named `name` and holds `data`.
pub open spec fn v1_source(mem: Seq<u8>, g: Geo, name: Seq<u8>, data: Seq<u8>) -> bool {
    exists|first: u32, h: crate::v1::V1Header, chain: Seq<u32>| #[trigger] v1_file_data(mem, g, first, h, chain) == Some((name, data))
}

/// Some file of the older format in the partition, whose clusters are all marked in
/// `v1`, is named `name` and holds `data`.
pub open spec fn v1_source_in(mem: Seq<u8>, g: Geo, v1: Seq<bool>, name: Seq<u8>, data: Seq<u8>) -> bool {
    exists|first: u32, h: crate::v1::V1Header, chain: Seq<u32>|
        #[trigger] v1_file_data(mem, g, first, h, chain) == Some((name, data)) && forall|k: int| 0 <= k < chain.len() ==> flag(v1, #[trigger] chain[k] as int)
}

/// The payload gathered along clusters that did not change is the same.
proof fn lemma_v1_gather_frame(m1: Seq<u8>, m2: Seq<u8>, g: Geo, h: crate::v1::V1Header, chain: Seq<u32>, k: nat)
    requires
        k <= chain.len(),
        forall|j: int| 0 <= j < k ==> #[trigger] cl(m2, g, chain[j] as int) == cl(m1, g, chain[j] as int),
    ensures
        v1_gather(m2, g, h, chain, k) == v1_gather(m1, g, h, chain, k),
    decreases k,
{
    if k > 0 {
        lemma_v1_gather_frame(m1, m2, g, h, chain, (k - 1) as nat);
        assert(cl(m2, g, chain[k - 1] as int) == cl(m1, g, chain[k - 1] as int));
    }
}

/// A file of the older format reads the same when its clusters did not change.
proof fn lemma_v1_frame(m1: Seq<u8>, m2: Seq<u8>, g: Geo, first: u32, h: crate::v1::V1Header, chain: Seq<u32>)
    requires
        forall|j: int| 0 <= j < chain.len() ==> #[trigger] cl(m2, g, chain[j] as int) == cl(m1, g, chain[j] as int),
    ensures
        v1_file_data(m2, g, first, h, chain) == v1_file_data(m1, g, first, h, chain),
{
    lemma_v1_gather_frame(m1, m2, g, h, chain, chain.len());
    if chain.len() >= 1 && chain[0] == first {
        assert(cl(m2, g, chain[0] as int) == cl(m1, g, chain[0] as int));
        assert forall|k: int| 1 <= k < chain.len() implies word0(m2, g, #[trigger] chain[k] as int) == word0(m1, g, chain[k] as int) by {
            assert(cl(m2, g, chain[k] as int) == cl(m1, g, chain[k] as int));
        }
    }
}

/// Two ends of the leading erased run of the same bytes are the same.
proof fn lemma_ff_run_unique(b: Seq<u8>, i: int, j: int)
    requires
        crate::v1::ff_run_end(b, i),
        crate::v1::ff_run_end(b, j),
    ensures
        i == j,
{
    if i < j {
        assert(b[i] == 0xFFu8);
    } else if j < i {
        assert(b[j] == 0xFFu8);
    }
}

/// The end of the migration: the sweep keeps the partition well formed and the reads
/// it had, reclaims damaged heads, and completes the migration.
#[verifier::spinoff_prover]
#[verifier::rlimit(60)]
proof fn lemma_migrate_end(
    m0: Seq<u8>,
    g: Geo,
    map0: Seq<bool>,
    cursor0: u32,
    fs: Seq<V1File>,
    st: Seq<MoveState>,
    me: Seq<u8>,
    map_end: Seq<bool>,
)
    requires
        st.len() == fs.len() + 1,
        st[0] == (MoveState { mem: m0, map: map0, cursor: cursor0, keep: Seq::new(g.n as nat, |c: int| false) }),
        forall|k: int| 0 <= k < fs.len() ==> v1_step(g, #[trigger] st[k], fs[k], st[k + 1]),
        forall|j: int| 0 <= j < fs.len() ==> v1_file_head(m0, g, map0, (#[trigger] fs[j]).first as int, fs[j].header),
        forall|c: int, h: crate::v1::V1Header| #[trigger] v1_file_head(m0, g, map0, c, h) ==> exists|j: int| 0 <= j < fs.len() && #[trigger] fs[j].first as int == c,
        forall|a: int, b: int| 0 <= a < b < fs.len() ==> (#[trigger] fs[a]).first != (#[trigger] fs[b]).first,
        forall|a: int, b: int| 0 <= a < b < fs.len() ==> (#[trigger] fs[a]).header.data_len <= (#[trigger] fs[b]).header.data_len,
        wf(st.last().mem, g),
        g.base + g.n * 4096 <= st.last().mem.len(),
        st.last().map.len() == g.n,
        st.last().keep.len() == g.n,
        forall|c: int| 0 <= c < g.n && #[trigger] flag(st.last().map, c) ==> word0(st.last().mem, g, c) != MAGIC && word0(st.last().mem, g, c) != CONT_B,
        forall|c: int| 0 <= c < g.n && #[trigger] flag(map0, c) && word0(m0, g, c) != crate::v1::V1_CONT_B && !v1_head(m0, g, c)
            ==> flag(st.last().map, c),
        forall|c: int| 0 <= c < g.n && #[trigger] st.last().keep[c] ==> word0(m0, g, c) == crate::v1::V1_CONT_B || v1_head(m0, g, c),
        me.len() == st.last().mem.len(),
        forall|c: int| 0 <= c < g.n ==> #[trigger] cl(me, g, c) == (if st.last().map[c] && !st.last().keep[c] {
            crate::format::ff(4096)
        } else {
            cl(st.last().mem, g, c)
        }),
        map_end == (if some_kept(g, st.last().keep) {
            Seq::new(g.n as nat, |c: int| st.last().map[c] && st.last().keep[c])
        } else {
            Seq::<bool>::empty()
        }),
    ensures
        wf(me, g),
        forall|x: Seq<u8>| #[trigger] copies(me, g, x) == copies(st.last().mem, g, x),
        forall|x: Seq<u8>| #[trigger] read_result(me, g, x) == read_result(st.last().mem, g, x),
        forall|c: int| 0 <= c < g.n && #[trigger] flag(map0, c) && word0(m0, g, c) != crate::v1::V1_CONT_B && !v1_head(m0, g, c)
            ==> !flag(map_end, c) && cl(me, g, c) == crate::format::ff(4096),
        v1_migration(m0, g, map0, cursor0, fs, st, me, map_end),
{
    let z = st.last();
    assert forall|c: int| 0 <= c < g.n implies #[trigger] cl(me, g, c) == cl(z.mem, g, c) || (cl(me, g, c) == crate::format::ff(4096)
        && word0(z.mem, g, c) != MAGIC && word0(z.mem, g, c) != CONT_B) by {
        if z.map[c] && !z.keep[c] {
            assert(flag(z.map, c));
        }
    }
    lemma_erase_outside_files(z.mem, me, g);
    assert forall|c: int| 0 <= c < g.n && #[trigger] flag(map0, c) && word0(m0, g, c) != crate::v1::V1_CONT_B && !v1_head(m0, g, c)
        implies !flag(map_end, c) && cl(me, g, c) == crate::format::ff(4096) by {
        assert(flag(z.map, c));
        assert(!z.keep[c]);
    }
    assert forall|c: int| 0 <= c < g.n implies #[trigger] cl(me, g, c) == (if flag(z.map, c) && !z.keep[c] {
        crate::format::ff(4096)
    } else {
        cl(z.mem, g, c)
    }) by {
        assert(cl(me, g, c) == (if z.map[c] && !z.keep[c] {
            crate::format::ff(4096)
        } else {
            cl(z.mem, g, c)
        }));
    }
    assert(Seq::new(g.n as nat, |c: int| z.map[c] && z.keep[c]) =~= Seq::new(g.n as nat, |c: int| flag(z.map, c) && z.keep[c]));
    assert(swept(g, z, me, map_end));
    assert forall|x: Seq<u8>| copies(m0, g, x).len() > 0 implies #[trigger] read_result(me, g, x) == read_result(m0, g, x) by {
        lemma_present_stays(g, fs, st, x, fs.len() as int);
    }
    assert forall|k: int| 0 <= k < fs.len() && #[trigger] v1_moves(g, st[k], fs[k]) implies read_result(me, g, v1_name(g, st[k], fs[k]))
        == Ok::<Seq<u8>, StoreError>(v1_data(g, st[k], fs[k])) by {
        lemma_moved_stays(g, fs, st, k, fs.len() as int);
    }
}

/// Moving one file keeps the kept clusters continuation clusters or heads of `m0`, and
/// keeps damaged heads marked.
proof fn lemma_mig_keep(m0: Seq<u8>, g: Geo, map0: Seq<bool>, f: V1File, sa: MoveState, sb: MoveState)
    requires
        v1_step(g, sa, f, sb),
        v1_file_head(m0, g, map0, f.first as int, f.header),
        sa.keep.len() == g.n,
        v1_guarded(sa.mem, g, sa.map),
        forall|c: int| 0 <= c < g.n && #[trigger] flag(sa.map, c) ==> cl(sa.mem, g, c) == cl(m0, g, c),
        forall|c: int| 0 <= c < g.n && #[trigger] sa.keep[c] ==> word0(m0, g, c) == crate::v1::V1_CONT_B || v1_head(m0, g, c),
        forall|c: int| 0 <= c < g.n && #[trigger] flag(map0, c) && word0(m0, g, c) != crate::v1::V1_CONT_B && !v1_head(m0, g, c)
            ==> flag(sa.map, c),
    ensures
        forall|c: int| 0 <= c < g.n && #[trigger] sb.keep[c] ==> word0(m0, g, c) == crate::v1::V1_CONT_B || v1_head(m0, g, c),
        forall|c: int| 0 <= c < g.n && #[trigger] flag(map0, c) && word0(m0, g, c) != crate::v1::V1_CONT_B && !v1_head(m0, g, c)
            ==> flag(sb.map, c),
        some_kept(g, sb.keep) == (some_kept(g, sa.keep) || v1_kept(g, sa, f)),
{
    let ch = v1_chain(sa.mem, g, f.first);
    lemma_v1_links_shape(sa.mem, g, f.first, g.n as nat);
    assert(v1_head(m0, g, f.first as int));
    assert forall|c: int| 0 <= c < g.n && #[trigger] sb.keep[c] implies word0(m0, g, c) == crate::v1::V1_CONT_B || v1_head(m0, g, c) by {
        if !sa.keep[c] {
            let j = choose|j: int| 0 <= j < ch.len() && #[trigger] ch[j] as int == c;
            if j >= 1 {
                assert(word0(sa.mem, g, ch[j] as int) == crate::v1::V1_CONT_B);
                assert(flag(sa.map, c));
                assert(cl(sa.mem, g, c) == cl(m0, g, c));
            }
        }
    }
    assert forall|c: int| 0 <= c < g.n && #[trigger] flag(map0, c) && word0(m0, g, c) != crate::v1::V1_CONT_B && !v1_head(m0, g, c)
        implies flag(sb.map, c) by {
        assert(flag(sa.map, c));
        assert(cl(sa.mem, g, c) == cl(m0, g, c));
        assert(c != f.first as int);
        if !flag(sb.map, c) {
            let j = choose|j: int| 0 <= j < ch.len() && #[trigger] ch[j] as int == c;
            if j >= 1 {
                assert(word0(sa.mem, g, ch[j] as int) == crate::v1::V1_CONT_B);
            }
        }
    }
    if v1_kept(g, sa, f) {
        assert(ch[0] as int == f.first as int);
        assert(sb.keep[f.first as int]);
    } else {
        assert(sb.keep =~= sa.keep);
    }
}

/// Moving one file keeps the reads that the migration promises.
proof fn lemma_mig_reads(m0: Seq<u8>, g: Geo, mk: Seq<u8>, mapk: Seq<bool>, m1: Seq<u8>)
    requires
        forall|c: int| 0 <= c < g.n && #[trigger] flag(mapk, c) ==> cl(mk, g, c) == cl(m0, g, c),
        forall|x: Seq<u8>| copies(m0, g, x).len() > 0 ==> #[trigger] copies(mk, g, x) == copies(m0, g, x) && read_result(mk, g, x) == read_result(m0, g, x),
        forall|x: Seq<u8>| copies(m0, g, x).len() == 0 ==> #[trigger] read_result(mk, g, x) == Err::<Seq<u8>, StoreError>(StoreError::NotFound)
            || (read_result(mk, g, x) matches Ok(d) && v1_source(m0, g, x, d)),
        forall|x: Seq<u8>| copies(mk, g, x).len() > 0 ==> #[trigger] copies(m1, g, x) == copies(mk, g, x) && read_result(m1, g, x) == read_result(mk, g, x),
        forall|x: Seq<u8>| copies(mk, g, x).len() == 0 && #[trigger] read_result(m1, g, x) != read_result(mk, g, x) ==> (
            read_result(m1, g, x) matches Ok(d) && v1_source_in(mk, g, mapk, x, d)),
    ensures
        forall|x: Seq<u8>| copies(m0, g, x).len() > 0 ==> #[trigger] copies(m1, g, x) == copies(m0, g, x) && read_result(m1, g, x) == read_result(m0, g, x),
        forall|x: Seq<u8>| copies(m0, g, x).len() == 0 ==> #[trigger] read_result(m1, g, x) == Err::<Seq<u8>, StoreError>(StoreError::NotFound)
            || (read_result(m1, g, x) matches Ok(d) && v1_source(m0, g, x, d)),
{
    assert forall|x: Seq<u8>| copies(m0, g, x).len() > 0 implies #[trigger] copies(m1, g, x) == copies(m0, g, x)
        && read_result(m1, g, x) == read_result(m0, g, x) by {
        assert(copies(mk, g, x) == copies(m0, g, x));
    }
    assert forall|x: Seq<u8>| copies(m0, g, x).len() == 0 implies #[trigger] read_result(m1, g, x) == Err::<Seq<u8>, StoreError>(StoreError::NotFound)
        || (read_result(m1, g, x) matches Ok(d) && v1_source(m0, g, x, d)) by {
        if copies(mk, g, x).len() > 0 {
            assert(read_result(m1, g, x) == read_result(mk, g, x));
        } else if read_result(m1, g, x) != read_result(mk, g, x) {
            let d = read_result(m1, g, x).unwrap();
            assert(v1_source_in(mk, g, mapk, x, d));
            let (first, h, chain) = choose|first: u32, h: crate::v1::V1Header, chain: Seq<u32>|
                #[trigger] v1_file_data(mk, g, first, h, chain) == Some((x, d)) && forall|t: int| 0 <= t < chain.len() ==> flag(mapk, #[trigger] chain[t] as int);
            assert forall|t: int| 0 <= t < chain.len() implies #[trigger] cl(m0, g, chain[t] as int) == cl(mk, g, chain[t] as int) by {
                assert(flag(mapk, chain[t] as int));
                assert(chain[t] < g.n);
            }
            lemma_v1_frame(mk, m0, g, first, h, chain);
            assert(v1_file_data(m0, g, first, h, chain) == Some((x, d)));
        }
    }
}

/// What opening a store on `m0` does: healing gives `m1` (each cluster as `healed`
/// says, every header starting a whole chain, no name twice); then, when `m1` is well formed, the files of the older format that the
/// start-up scan marks are moved from `m1`, with the cursor after the last taken
/// cluster, as `v1_migration` says, ending in `m_end` and `map_end`.
pub open spec fn opened(m0: Seq<u8>, g: Geo, m1: Seq<u8>, fs: Seq<V1File>, st: Seq<MoveState>, m_end: Seq<u8>, map_end: Seq<bool>) -> bool {
    let map = v1_scan(m0, g);
    &&& m1.len() == m0.len()
    &&& forall|c: int| 0 <= c < g.n ==> #[trigger] cl(m1, g, c) == healed(m0, g, c)
    &&& forall|i: int| 0 <= i < g.n && #[trigger] header_at(m1, g, i) is Some ==> valid_at(m1, g, i)
    &&& forall|x: Seq<u8>| #[trigger] copies(m1, g, x).len() <= 1
    &&& wf(m1, g) ==> v1_migration(m1, g, map, (match last_used(m1, g, map, g.n as nat) {
        Some(h) => ((h + 1) as int % (g.n as int)) as u32,
        None => 0u32,
    }), fs, st, m_end, map_end)
}

/// A file of the older format found at start-up: its first cluster and header.
#[derive(Clone, Copy)]
pub struct V1File {
    pub first: u32,
    pub header: crate::v1::V1Header,
}

/// What the migration works on between two files of the older format: the bytes of the
/// device, the map of clusters of the older format, the allocator's cursor, and the
/// clusters of files kept for a later start.
pub struct MoveState {
    pub mem: Seq<u8>,
    pub map: Seq<bool>,
    pub cursor: u32,
    pub keep: Seq<bool>,
}

/// Cluster `c` is marked in `map` and starts a file of the older format with header
/// `h`: it is not a continuation cluster, after its leading erased bytes comes the
/// magic, and the header there parses.
pub open spec fn v1_file_head(mem: Seq<u8>, g: Geo, map: Seq<bool>, c: int, h: crate::v1::V1Header) -> bool {
    let b = cl(mem, g, c);
    &&& 0 <= c < g.n
    &&& flag(map, c)
    &&& word0(mem, g, c) != crate::v1::V1_CONT_B
    &&& crate::v1::ff_run_end(b, h.start as int)
    &&& h.start + 4 <= b.len()
    &&& spec_word(b, h.start as int) == crate::v1::V1_MAGIC
    &&& crate::v1::spec_parse_v1_header(b, h.start as int, g.size as int) == Some(h)
}

/// The payload of the file `f` of the older format in `a`, put back together from its chain.
pub open spec fn v1_payload(g: Geo, a: MoveState, f: V1File) -> Seq<u8> {
    let ch = v1_chain(a.mem, g, f.first);
    v1_gather(a.mem, g, f.header, ch, ch.len())
}

/// The name the file `f` of the older format carries in `a`.
pub open spec fn v1_name(g: Geo, a: MoveState, f: V1File) -> Seq<u8> {
    v1_payload(g, a, f).subrange(16, 16 + f.header.name_len)
}

/// The data the file `f` of the older format carries in `a`.
pub open spec fn v1_data(g: Geo, a: MoveState, f: V1File) -> Seq<u8> {
    let p = v1_payload(g, a, f);
    let sp = crate::v1::spec_split_v1_payload(p, f.header);
    p.subrange(sp.unwrap().0 as int, sp.unwrap().1 as int)
}

/// The file `f` of the older format is written in the current format when it is moved
/// from `a`: it is usable (whole, data CRC right, UTF-8 name), its name has no copy yet,
/// and it is not kept.
pub open spec fn v1_moves(g: Geo, a: MoveState, f: V1File) -> bool {
    let h = f.header;
    let ch = v1_chain(a.mem, g, f.first);
    let p = v1_payload(g, a, f);
    let complete = ch.len() == h.spec_need() && p.len() == crate::v1::spec_payload_len(h.name_len as nat, h.data_len as nat);
    &&& complete
    &&& crate::v1::spec_split_v1_payload(p, h) is Some
    &&& valid_utf8(v1_name(g, a, f))
    &&& copies(a.mem, g, v1_name(g, a, f)).len() == 0
    &&& !v1_kept(g, a, f)
}

/// Whether moving the file `f` of the older format from `a` keeps it for a later start:
/// its chain is whole but its payload short, or it is usable (whole, data CRC right,
/// UTF-8 name), its name has no copy in the current format, and it cannot be written
/// (name too long, no space).
pub open spec fn v1_kept(g: Geo, a: MoveState, f: V1File) -> bool {
    let h = f.header;
    let ch = v1_chain(a.mem, g, f.first);
    let p = v1_gather(a.mem, g, h, ch, ch.len());
    let whole = ch.len() == h.spec_need();
    let complete = whole && p.len() == crate::v1::spec_payload_len(h.name_len as nat, h.data_len as nat);
    let name = p.subrange(16, 16 + h.name_len);
    let sp = crate::v1::spec_split_v1_payload(p, h);
    let data = p.subrange(sp.unwrap().0 as int, sp.unwrap().1 as int);
    let usable = complete && sp is Some && valid_utf8(name);
    let absent = copies(a.mem, g, name).len() == 0;
    let writable = name.len() <= MAX_NAME_LEN && data.len() <= u32::MAX && alloc_from(
        a.mem,
        g,
        a.map,
        a.cursor,
        Seq::empty(),
        spec_need(name.len(), data.len()),
    ) is Some;
    (whole && !complete) || (usable && absent && !writable)
}

/// What moving the file `f` of the older format does, from `a` to `b`. With `ch` its
/// chain and `p` the payload put back together from it: a file whose chain is whole but
/// whose payload is short is kept; a usable file (whole, data CRC right, UTF-8 name)
/// whose name has no copy in the current format and that cannot be written (name too
/// long, no space) is kept; a kept or unusable file changes nothing but `keep`, which
/// gains the clusters of a kept file; a usable file that is not kept has its chain
/// erased and unmarked, and, when its name had no copy, the name then reads its data.
pub open spec fn v1_step(g: Geo, a: MoveState, f: V1File, b: MoveState) -> bool {
    let h = f.header;
    let ch = v1_chain(a.mem, g, f.first);
    let p = v1_gather(a.mem, g, h, ch, ch.len());
    let whole = ch.len() == h.spec_need();
    let complete = whole && p.len() == crate::v1::spec_payload_len(h.name_len as nat, h.data_len as nat);
    let name = p.subrange(16, 16 + h.name_len);
    let sp = crate::v1::spec_split_v1_payload(p, h);
    let data = p.subrange(sp.unwrap().0 as int, sp.unwrap().1 as int);
    let usable = complete && sp is Some && valid_utf8(name);
    let absent = copies(a.mem, g, name).len() == 0;
    let kept = v1_kept(g, a, f);
    &&& b.map.len() == a.map.len()
    &&& b.keep.len() == a.keep.len()
    &&& forall|c: int| #[trigger] flag(b.map, c) ==> flag(a.map, c)
    &&& forall|c: int| 0 <= c < g.n && flag(a.map, c) && !#[trigger] flag(b.map, c) ==> exists|j: int| 0 <= j < ch.len() && #[trigger] ch[j] as int == c
    &&& kept || !usable ==> b.mem == a.mem && b.map == a.map && b.cursor == a.cursor
    &&& forall|c: int| 0 <= c < g.n ==> #[trigger] b.keep[c] == (a.keep[c] || (kept && exists|j: int| 0 <= j < ch.len() && #[trigger] ch[j] as int == c))
    &&& usable && !kept ==> forall|j: int| 0 <= j < ch.len() ==> cl(b.mem, g, #[trigger] ch[j] as int) == crate::format::ff(4096) && !flag(b.map, ch[j] as int)
    &&& usable && !kept && absent ==> read_result(b.mem, g, name) == Ok::<Seq<u8>, StoreError>(data)
    &&& forall|x: Seq<u8>| copies(a.mem, g, x).len() > 0 ==> #[trigger] copies(b.mem, g, x) == copies(a.mem, g, x) && read_result(b.mem, g, x)
        == read_result(a.mem, g, x)
    &&& forall|c: int| 0 <= c < g.n && #[trigger] flag(b.map, c) ==> cl(b.mem, g, c) == cl(a.mem, g, c)
}

/// Some file was kept: a cluster is marked in `keep`.
pub open spec fn some_kept(g: Geo, keep: Seq<bool>) -> bool {
    exists|c: int| 0 <= c < g.n && #[trigger] keep[c]
}

/// The end of the migration from `z`: every marked cluster of no kept file is erased and
/// unmarked; the map is dropped when nothing was kept.
pub open spec fn swept(g: Geo, z: MoveState, m_end: Seq<u8>, map_end: Seq<bool>) -> bool {
    &&& m_end.len() == z.mem.len()
    &&& forall|c: int| 0 <= c < g.n ==> #[trigger] cl(m_end, g, c) == (if flag(z.map, c) && !z.keep[c] {
        crate::format::ff(4096)
    } else {
        cl(z.mem, g, c)
    })
    &&& map_end == (if some_kept(g, z.keep) {
        Seq::new(g.n as nat, |c: int| flag(z.map, c) && z.keep[c])
    } else {
        Seq::<bool>::empty()
    })
}

/// The migration from `m0`, `map0` and `cursor0` to `m_end` and `map_end`: `fs` are the
/// files of the older format, each once and smaller data first, `st` the states between
/// them, each file moved by `v1_step`, and at the end the sweep.
pub open spec fn v1_migration(
    m0: Seq<u8>,
    g: Geo,
    map0: Seq<bool>,
    cursor0: u32,
    fs: Seq<V1File>,
    st: Seq<MoveState>,
    m_end: Seq<u8>,
    map_end: Seq<bool>,
) -> bool {
    &&& forall|j: int| 0 <= j < fs.len() ==> v1_file_head(m0, g, map0, (#[trigger] fs[j]).first as int, fs[j].header)
    &&& forall|c: int, h: crate::v1::V1Header| #[trigger] v1_file_head(m0, g, map0, c, h) ==> exists|j: int| 0 <= j < fs.len() && #[trigger] fs[j].first as int == c
    &&& forall|a: int, b: int| 0 <= a < b < fs.len() ==> (#[trigger] fs[a]).first != (#[trigger] fs[b]).first
    &&& forall|a: int, b: int| 0 <= a < b < fs.len() ==> (#[trigger] fs[a]).header.data_len <= (#[trigger] fs[b]).header.data_len
    &&& st.len() == fs.len() + 1
    &&& st[0] == (MoveState { mem: m0, map: map0, cursor: cursor0, keep: Seq::new(g.n as nat, |c: int| false) })
    &&& forall|k: int| 0 <= k < fs.len() ==> v1_step(g, #[trigger] st[k], fs[k], st[k + 1])
    &&& swept(g, st.last(), m_end, map_end)
    &&& forall|x: Seq<u8>| #[trigger] read_result(m_end, g, x) == read_result(st.last().mem, g, x)
    &&& forall|x: Seq<u8>| copies(m0, g, x).len() > 0 ==> #[trigger] read_result(m_end, g, x) == read_result(m0, g, x)
    &&& forall|k: int| 0 <= k < fs.len() && #[trigger] v1_moves(g, st[k], fs[k]) ==> read_result(m_end, g, v1_name(g, st[k], fs[k]))
        == Ok::<Seq<u8>, StoreError>(v1_data(g, st[k], fs[k]))
}

/// A file moved at step `k` still reads its data at every later step.
#[verifier::spinoff_prover]
#[verifier::rlimit(60)]
proof fn lemma_moved_stays(g: Geo, fs: Seq<V1File>, st: Seq<MoveState>, k: int, j: int)
    requires
        st.len() == fs.len() + 1,
        forall|i: int| 0 <= i < fs.len() ==> v1_step(g, #[trigger] st[i], fs[i], st[i + 1]),
        0 <= k < j <= fs.len(),
        v1_moves(g, st[k], fs[k]),
    ensures
        read_result(st[j].mem, g, v1_name(g, st[k], fs[k])) == Ok::<Seq<u8>, StoreError>(v1_data(g, st[k], fs[k])),
    decreases j,
{
    let x = v1_name(g, st[k], fs[k]);
    if j == k + 1 {
        assert(v1_step(g, st[k], fs[k], st[k + 1]));
    } else {
        lemma_moved_stays(g, fs, st, k, j - 1);
        lemma_read_has_copy(st[j - 1].mem, g, x);
        assert(v1_step(g, st[j - 1], fs[j - 1], st[j]));
    }
}

/// A name that has a copy before the migration reads the same at every step.
#[verifier::spinoff_prover]
#[verifier::rlimit(60)]
proof fn lemma_present_stays(g: Geo, fs: Seq<V1File>, st: Seq<MoveState>, x: Seq<u8>, j: int)
    requires
        st.len() == fs.len() + 1,
        forall|i: int| 0 <= i < fs.len() ==> v1_step(g, #[trigger] st[i], fs[i], st[i + 1]),
        0 <= j <= fs.len(),
        copies(st[0].mem, g, x).len() > 0,
    ensures
        copies(st[j].mem, g, x) == copies(st[0].mem, g, x),
        read_result(st[j].mem, g, x) == read_result(st[0].mem, g, x),
    decreases j,
{
    if j > 0 {
        lemma_present_stays(g, fs, st, x, j - 1);
        assert(v1_step(g, st[j - 1], fs[j - 1], st[j]));
    }
}

/// Inserts `f` after every file whose data is not longer than its own, so that a list
/// built this way is ordered by data length and keeps the order of equal lengths.
fn insert_by_len(files: &mut Vec<V1File>, f: V1File) -> (p: usize)
    ensures
        p <= old(files)@.len(),
        final(files)@ == old(files)@.insert(p as int, f),
        (forall|a: int, b: int| 0 <= a < b < old(files)@.len() ==> (#[trigger] old(files)@[a]).header.data_len <= (#[trigger] old(files)@[b]).header.data_len)
            ==> forall|a: int, b: int| 0 <= a < b < final(files)@.len() ==> (#[trigger] final(files)@[a]).header.data_len <= (#[trigger] final(files)@[b]).header.data_len,
{
    let mut p = files.len();
    while p > 0 && files[p - 1].header.data_len > f.header.data_len
        invariant
            p <= files@.len(),
            files@ == old(files)@,
            forall|q: int| p <= q < files@.len() ==> (#[trigger] files@[q]).header.data_len > f.header.data_len,
        decreases p,
    {
        p = p - 1;
    }
    let ghost before = files@;
    files.insert(p, f);
    proof {
        if forall|a: int, b: int| 0 <= a < b < before.len() ==> (#[trigger] before[a]).header.data_len <= (#[trigger] before[b]).header.data_len {
            assert forall|a: int, b: int| 0 <= a < b < files@.len() implies (#[trigger] files@[a]).header.data_len <= (#[trigger] files@[b]).header.data_len by {
                let fa = files@[a];
                let fb = files@[b];
                if b < p {
                    assert(fa == before[a] && fb == before[b]);
                } else if b == p {
                    assert(fa == before[a]);
                    assert(before[a].header.data_len <= before[p - 1].header.data_len || a == p - 1);
                } else if a < p {
                    assert(fa == before[a] && fb == before[b - 1]);
                    assert(before[a].header.data_len <= before[b - 1].header.data_len);
                } else if a == p {
                    assert(fb == before[b - 1]);
                } else {
                    assert(fa == before[a - 1] && fb == before[b - 1]);
                }
            }
        }
    }
    p
}

/// The clusters a payload of `p` bytes takes hold at least its bytes.
proof fn lemma_v1_need_bound(p: nat)
    ensures
        p <= crate::v1::spec_v1_need(p) * 4088,
{
    if p > 4088 {
        let x = (p - 4088 + 4079) / 4080;
        assert(p - 4088 <= x * 4080) by (nonlinear_arith)
            requires
                x == (p - 4088 + 4079) / 4080,
                p > 4088,
        ;
        assert((1 + x) * 4088 >= 4088 + x * 4080) by (nonlinear_arith)
            requires
                x >= 0,
        ;
    }
}

/// The cluster that follows the chain of the older format `links`: the one the last
/// cluster's mark points to, when it is a continuation cluster not yet in `links` and
/// the chain is shorter than the partition.
pub open spec fn v1_next(mem: Seq<u8>, g: Geo, links: Seq<u32>) -> Option<u32> {
    let tail = cl(mem, g, links.last() as int).subrange(DATA_AREA_END as int, CLUSTER_SIZE as int);
    if spec_word(tail, 0) != crate::v1::V1_CONT_A {
        None
    } else {
        match crate::format::spec_addr_to_index(spec_word(tail, 4), g.base, g.n) {
            None => None,
            Some(nx) => if links.contains(nx) || links.len() >= g.n || word0(mem, g, nx as int) != crate::v1::V1_CONT_B {
                None
            } else {
                Some(nx)
            },
        }
    }
}

/// The chain of the older format from `first`, followed for at most `k` links.
pub open spec fn v1_links(mem: Seq<u8>, g: Geo, first: u32, k: nat) -> Seq<u32>
    decreases k,
{
    if k == 0 {
        seq![first]
    } else {
        let l = v1_links(mem, g, first, (k - 1) as nat);
        match v1_next(mem, g, l) {
            Some(nx) => l.push(nx),
            None => l,
        }
    }
}

/// The chain of the older format that starts at `first`.
pub open spec fn v1_chain(mem: Seq<u8>, g: Geo, first: u32) -> Seq<u32> {
    v1_links(mem, g, first, g.n as nat)
}

/// A chain of the older format starts at `first` and goes on over continuation clusters.
proof fn lemma_v1_links_shape(mem: Seq<u8>, g: Geo, first: u32, k: nat)
    ensures
        v1_links(mem, g, first, k).len() >= 1,
        v1_links(mem, g, first, k)[0] == first,
        forall|j: int| 1 <= j < v1_links(mem, g, first, k).len() ==> word0(mem, g, #[trigger] v1_links(mem, g, first, k)[j] as int) == crate::v1::V1_CONT_B,
        first < g.n ==> forall|j: int| 0 <= j < v1_links(mem, g, first, k).len() ==> #[trigger] v1_links(mem, g, first, k)[j] < g.n,
    decreases k,
{
    if k > 0 {
        lemma_v1_links_shape(mem, g, first, (k - 1) as nat);
        let l = v1_links(mem, g, first, (k - 1) as nat);
        if let Some(nx) = v1_next(mem, g, l) {
            assert forall|j: int| 1 <= j < l.push(nx).len() implies word0(mem, g, #[trigger] l.push(nx)[j] as int) == crate::v1::V1_CONT_B by {
                if j < l.len() {
                    assert(l.push(nx)[j] == l[j]);
                }
            }
            if first < g.n {
                assert forall|j: int| 0 <= j < l.push(nx).len() implies #[trigger] l.push(nx)[j] < g.n by {
                    if j < l.len() {
                        assert(l.push(nx)[j] == l[j]);
                    }
                }
            }
        }
    }
}

/// Cluster `c` holds a header of the older format at some offset.
pub open spec fn v1_head(mem: Seq<u8>, g: Geo, c: int) -> bool {
    exists|start: int| #[trigger] crate::v1::spec_parse_v1_header(cl(mem, g, c), start, g.size as int) is Some
}

/// A chain of the older format that stops growing stays as it is.
proof fn lemma_v1_links_stop(mem: Seq<u8>, g: Geo, first: u32, k: nat, j: nat)
    requires
        k <= j,
        v1_next(mem, g, v1_links(mem, g, first, k)) is None,
    ensures
        v1_links(mem, g, first, j) == v1_links(mem, g, first, k),
    decreases j,
{
    if j > k {
        lemma_v1_links_stop(mem, g, first, k, (j - 1) as nat);
    }
}

/// The mark at the end of cluster `a` of the older format points on to cluster `b`,
/// and `b` is a continuation cluster.
pub open spec fn v1_points_to(mem: Seq<u8>, g: Geo, a: u32, b: u32) -> bool {
    let tail = cl(mem, g, a as int).subrange(DATA_AREA_END as int, CLUSTER_SIZE as int);
    &&& spec_word(tail, 0) == crate::v1::V1_CONT_A
    &&& crate::format::spec_addr_to_index(spec_word(tail, 4), g.base, g.n) == Some(b)
    &&& word0(mem, g, b as int) == crate::v1::V1_CONT_B
}

/// A chain of the older format only grows: a shorter walk is a prefix of a longer one.
proof fn lemma_v1_links_grow(mem: Seq<u8>, g: Geo, first: u32, k: nat, j: nat)
    requires
        k <= j,
    ensures
        v1_links(mem, g, first, j).len() >= v1_links(mem, g, first, k).len(),
        v1_links(mem, g, first, j).take(v1_links(mem, g, first, k).len() as int) == v1_links(mem, g, first, k),
    decreases j,
{
    if j > k {
        lemma_v1_links_grow(mem, g, first, k, (j - 1) as nat);
        let a = v1_links(mem, g, first, (j - 1) as nat);
        let b = v1_links(mem, g, first, j);
        let m = v1_links(mem, g, first, k).len() as int;
        if b != a {
            assert(b.take(m) =~= a.take(m));
        }
    } else {
        assert(v1_links(mem, g, first, j).take(v1_links(mem, g, first, k).len() as int) =~= v1_links(mem, g, first, k));
    }
}

/// Following the marks of the older format: when the clusters `cs`, distinct and in the
/// partition, each point on to the next, the chain collected from `cs[0]` starts with
/// all of them; and when the last one points on to no cluster outside `cs`, the chain is
/// exactly `cs`.
pub proof fn lemma_v1_chain_follows(mem: Seq<u8>, g: Geo, cs: Seq<u32>)
    requires
        cs.len() >= 1,
        cs.no_duplicates(),
        forall|k: int| 0 <= k < cs.len() ==> #[trigger] cs[k] < g.n,
        forall|k: int| 0 <= k < cs.len() - 1 ==> v1_points_to(mem, g, #[trigger] cs[k], cs[k + 1]),
    ensures
        v1_chain(mem, g, cs[0]).len() >= cs.len(),
        v1_chain(mem, g, cs[0]).take(cs.len() as int) == cs,
        (forall|b: u32| #[trigger] v1_points_to(mem, g, cs.last(), b) ==> cs.contains(b)) ==> v1_chain(mem, g, cs[0]) == cs,
{
    let first = cs[0];
    lemma_distinct_bound(cs, g.n);
    assert forall|k: nat| k < cs.len() implies #[trigger] v1_links(mem, g, first, k) == cs.take(k + 1 as int) by {
        lemma_v1_links_walk(mem, g, cs, k);
    }
    let last = (cs.len() - 1) as nat;
    assert(v1_links(mem, g, first, last) == cs.take(cs.len() as int));
    assert(cs.take(cs.len() as int) =~= cs);
    lemma_v1_links_grow(mem, g, first, last, g.n as nat);
    if forall|b: u32| #[trigger] v1_points_to(mem, g, cs.last(), b) ==> cs.contains(b) {
        assert(v1_next(mem, g, cs) is None) by {
            if let Some(nx) = v1_next(mem, g, cs) {
                assert(v1_points_to(mem, g, cs.last(), nx));
            }
        }
        lemma_v1_links_stop(mem, g, first, last, g.n as nat);
    }
}

/// The walk of `lemma_v1_chain_follows`, one link at a time.
proof fn lemma_v1_links_walk(mem: Seq<u8>, g: Geo, cs: Seq<u32>, k: nat)
    requires
        k < cs.len(),
        cs.len() <= g.n,
        cs.no_duplicates(),
        forall|j: int| 0 <= j < cs.len() - 1 ==> v1_points_to(mem, g, #[trigger] cs[j], cs[j + 1]),
    ensures
        v1_links(mem, g, cs[0], k) == cs.take(k + 1 as int),
    decreases k,
{
    if k == 0 {
        assert(cs.take(1) =~= seq![cs[0]]);
    } else {
        lemma_v1_links_walk(mem, g, cs, (k - 1) as nat);
        let l = cs.take(k as int);
        assert(l.last() == cs[k - 1]);
        assert(v1_points_to(mem, g, cs[k - 1], cs[k as int]));
        assert(!l.contains(cs[k as int])) by {
            if l.contains(cs[k as int]) {
                let t = choose|t: int| 0 <= t < l.len() && l[t] == cs[k as int];
                assert(cs[t] == cs[k as int]);
            }
        }
        assert(v1_next(mem, g, l) == Some(cs[k as int]));
        assert(cs.take(k + 1 as int) =~= l.push(cs[k as int]));
    }
}

impl<F: Flash> Store<F> {
    /// Collects the chain of a file of the older format: it follows the `V1_CONT_A`
    /// marks while they point to continuation clusters not seen yet.
    fn collect_v1_chain(&mut self, first_cluster: u32) -> (r: Vec<u32>)
        requires
            old(self).inv(),
            first_cluster < old(self).geo().n,
        ensures
            final(self).same(old(self)),
            good_clusters(old(self).geo(), r@),
            r@.len() >= 1,
            r@.len() <= old(self).geo().n,
            r@[0] == first_cluster,
            old(self).healthy() ==> forall|k: int| 1 <= k < r@.len() ==> word0(old(self).mem(), old(self).geo(), #[trigger] r@[k] as int) == crate::v1::V1_CONT_B,
            old(self).healthy() ==> r@ == v1_chain(old(self).mem(), old(self).geo(), first_cluster),
    {
        let ghost mem = self.mem();
        let ghost g = self.geo();
        let n = self.cluster_max_quantity;
        let mut links: Vec<u32> = Vec::new();
        links.push(first_cluster);
        let mut cur = first_cluster;
        assert(links@ =~= seq![first_cluster]);
        loop
            invariant
                self.same(old(self)),
                old(self).inv(),
                mem == self.mem(),
                g == self.geo(),
                n == g.n,
                links@.len() >= 1,
                links@.len() <= n,
                links@[0] == first_cluster,
                links@.last() == cur,
                good_clusters(g, links@),
                old(self).healthy() ==> forall|k: int| 1 <= k < links@.len() ==> word0(mem, g, #[trigger] links@[k] as int) == crate::v1::V1_CONT_B,
                old(self).healthy() ==> links@ == v1_links(mem, g, first_cluster, (links@.len() - 1) as nat),
            ensures
                old(self).healthy() ==> v1_next(mem, g, links@) is None,
                old(self).healthy() ==> links@ == v1_links(mem, g, first_cluster, (links@.len() - 1) as nat),
                links@.len() >= 1,
                links@.len() <= n,
                links@[0] == first_cluster,
                good_clusters(g, links@),
                old(self).healthy() ==> forall|k: int| 1 <= k < links@.len() ==> word0(mem, g, #[trigger] links@[k] as int) == crate::v1::V1_CONT_B,
                self.same(old(self)),
            decreases n - links@.len(),
        {
            proof {
                self.lemma_healthy_frame(old(self));
            }
            let tail = match self.read_tail(cur) {
                Ok(t) => t,
                Err(_) => {
                    break ;
                },
            };
            if word_at(tail.as_slice(), 0) != crate::v1::V1_CONT_A {
                break ;
            }
            let nx = match crate::format::addr_to_cluster_index(word_at(tail.as_slice(), 4), self.flash_addr, n) {
                Some(x) => x,
                None => {
                    break ;
                },
            };
            if contains_u32(&links, nx) || (links.len() as u32) >= n {
                break ;
            }
            let w = match self.read_first_word(nx) {
                Ok(w) => w,
                Err(_) => {
                    break ;
                },
            };
            if w != crate::v1::V1_CONT_B {
                break ;
            }
            let ghost before = links@;
            links.push(nx);
            cur = nx;
            proof {
                assert forall|a: int, b: int| 0 <= a < b < links@.len() implies links@[a] != links@[b] by {
                    if b == links@.len() - 1 {
                        assert(before.contains(links@[a]));
                    } else {
                        assert(before[a] != before[b]);
                    }
                }
                assert forall|k: int| 1 <= k < links@.len() implies word0(mem, g, #[trigger] links@[k] as int) == crate::v1::V1_CONT_B || !old(self).healthy() by {
                    if k < before.len() {
                        assert(links@[k] == before[k]);
                    }
                }
                lemma_distinct_bound(links@, n);
                if old(self).healthy() {
                    assert(v1_next(mem, g, before) == Some(nx));
                    assert(v1_links(mem, g, first_cluster, (links@.len() - 1) as nat) == before.push(nx));
                }
            }
        }
        proof {
            if old(self).healthy() {
                lemma_v1_links_stop(mem, g, first_cluster, (links@.len() - 1) as nat, n as nat);
            }
        }
        links
    }

    /// Puts the payload of a file of the older format back together from its chain:
    /// the first cluster from the file start up to byte 4088, each later one from byte 8.
    /// `None` when a cluster cannot be read or the chain holds too few bytes.
    fn read_v1_payload(&mut self, header: &crate::v1::V1Header, chain: &Vec<u32>) -> (r: Option<Vec<u8>>)
        requires
            old(self).inv(),
            header.start + 20 <= CLUSTER_SIZE,
            header.name_len + header.data_len + 24 <= usize::MAX,
            forall|k: int| 0 <= k < chain@.len() ==> #[trigger] chain@[k] < old(self).geo().n,
        ensures
            final(self).same(old(self)),
            r matches Some(p) ==> p@.len() == crate::v1::spec_payload_len(header.name_len as nat, header.data_len as nat),
            old(self).healthy() ==> {
                let p = v1_gather(old(self).mem(), old(self).geo(), *header, chain@, chain@.len() as nat);
                &&& (r is Some <==> p.len() == crate::v1::spec_payload_len(header.name_len as nat, header.data_len as nat))
                &&& r matches Some(v) ==> v@ == p
            },
    {
        let ghost mem = self.mem();
        let ghost g = self.geo();
        let total = header.payload_len();
        let mut payload: Vec<u8> = Vec::new();
        let mut k: usize = 0;
        while k < chain.len()
            invariant
                self.same(old(self)),
                old(self).inv(),
                mem == self.mem(),
                g == self.geo(),
                header.start + 20 <= CLUSTER_SIZE,
                total == crate::v1::spec_payload_len(header.name_len as nat, header.data_len as nat),
                forall|j: int| 0 <= j < chain@.len() ==> #[trigger] chain@[j] < old(self).geo().n,
                k <= chain@.len(),
                payload@.len() <= total,
                old(self).healthy() ==> payload@ == v1_gather(mem, g, *header, chain@, k as nat),
            decreases chain@.len() - k,
        {
            proof {
                self.lemma_healthy_frame(old(self));
            }
            let buf = match self.read_cluster(chain[k]) {
                Ok(b) => b,
                Err(_) => {
                    return None;
                },
            };
            let (start, cap) = if k == 0 {
                (header.start, crate::v1::V1_FIRST_CAPACITY - header.start)
            } else {
                (8usize, crate::v1::V1_CONT_CAPACITY)
            };
            let left = total - payload.len();
            let take = if left < cap {
                left
            } else {
                cap
            };
            let ghost before = payload@;
            let piece = slice_range(buf.as_slice(), start, start + take);
            payload.extend_from_slice(piece);
            proof {
                assert(payload@ =~= before + piece@);
            }
            k = k + 1;
        }
        if payload.len() == total {
            Some(payload)
        } else {
            None
        }
    }

    /// Erases the clusters of a chain of the older format, the first one first, and
    /// clears their flags in the map.
    fn erase_v1_chain(&mut self, chain: &Vec<u32>)
        requires
            old(self).inv(),
            forall|k: int| 0 <= k < chain@.len() ==> #[trigger] chain@[k] < old(self).geo().n,
        ensures
            final(self).inv(),
            final(self).keeps_device(old(self)),
            final(self).cursor() == old(self).cursor(),
            final(self).v1_map().len() == old(self).v1_map().len(),
            forall|c: int| 0 <= c < final(self).v1_map().len() ==> #[trigger] final(self).v1_map()[c] == (old(self).v1_map()[c]
                && !chain@.contains(c as u32)),
            old(self).healthy() ==> forall|c: int| 0 <= c < old(self).geo().n ==> #[trigger] cl(final(self).mem(), old(self).geo(), c) == (
                if chain@.contains(c as u32) {
                    crate::format::ff(4096)
                } else {
                    cl(old(self).mem(), old(self).geo(), c)
                }),
    {
        let ghost g = self.geo();
        let ghost m0 = self.mem();
        let mut k: usize = 0;
        while k < chain.len()
            invariant
                self.inv(),
                old(self).inv(),
                self.keeps_device(old(self)),
                g == self.geo(),
                m0 == old(self).mem(),
                self.write_cursor == old(self).write_cursor,
                self.v1_used@.len() == old(self).v1_used@.len(),
                forall|c: int| 0 <= c < self.v1_used@.len() ==> #[trigger] self.v1_used@[c] == (old(self).v1_used@[c]
                    && !chain@.take(k as int).contains(c as u32)),
                forall|j: int| 0 <= j < chain@.len() ==> #[trigger] chain@[j] < old(self).geo().n,
                k <= chain@.len(),
                old(self).healthy() ==> self.healthy(),
                old(self).healthy() ==> forall|c: int| 0 <= c < g.n ==> #[trigger] cl(self.mem(), g, c) == (
                    if chain@.take(k as int).contains(c as u32) {
                        crate::format::ff(4096)
                    } else {
                        cl(m0, g, c)
                    }),
            decreases chain@.len() - k,
        {
            let c = chain[k];
            let ghost before = self.mem();
            let ghost map0 = self.v1_used@;
            let _ = self.erase_cluster(c);
            if (c as usize) < self.v1_used.len() {
                self.v1_used.set(c as usize, false);
            }
            proof {
                let t1 = chain@.take(k + 1);
                let t0 = chain@.take(k as int);
                assert(t1 =~= t0.push(c));
                assert forall|x: int| #![trigger t1.contains(x as u32)] 0 <= x < g.n ==> (t1.contains(x as u32) <==> t0.contains(x as u32) || x == c as int) by {
                    if 0 <= x < g.n {
                        if t1.contains(x as u32) {
                            let v = choose|v: int| 0 <= v < t1.len() && t1[v] == x as u32;
                            if v < k {
                                assert(t0[v] == x as u32);
                            }
                        }
                        if t0.contains(x as u32) {
                            let v = choose|v: int| 0 <= v < t0.len() && t0[v] == x as u32;
                            assert(t1[v] == x as u32);
                        }
                        assert(t1[k as int] == c);
                    }
                }
                assert forall|x: int| 0 <= x < self.v1_used@.len() implies #[trigger] self.v1_used@[x] == (old(self).v1_used@[x]
                    && !t1.contains(x as u32)) by {
                    assert(self.v1_used@.len() == g.n || self.v1_used@.len() == 0);
                }
                if old(self).healthy() {
                    lemma_cl_update(before, g, c as int, crate::format::ff(4096));
                }
            }
            k = k + 1;
        }
        proof {
            assert(chain@.take(k as int) =~= chain@);
        }
    }
}

impl<F: Flash> Store<F> {
    /// Nothing but the bytes of clusters, the allocator's cursor and the map of the
    /// older format has changed.
    pub open spec fn keeps_device(&self, old: &Self) -> bool {
        &&& self.device().reliable() == old.device().reliable()
        &&& self.mem().len() == old.mem().len()
        &&& self.geo() == old.geo()
    }

    /// Moves one file of the older format: collects its chain, puts its payload back
    /// together, checks it, writes a copy in the current format unless the name
    /// already has one, and erases the old file. Returns whether the file is kept as
    /// it is for a later start (a read error, no space); its clusters are then marked
    /// in `keep`.
    #[verifier::spinoff_prover]
    #[verifier::rlimit(80)]
    fn migrate_one(&mut self, f: V1File, keep: &mut Vec<bool>, Ghost(parsed): Ghost<bool>) -> (kept: bool)
        requires
            old(self).inv(),
            f.first < old(self).geo().n,
            f.header.start + 20 <= CLUSTER_SIZE,
            f.header.name_len <= 4068,
            f.header.data_len <= u32::MAX,
            old(keep)@.len() == old(self).geo().n,
            old(self).v1_map().len() == old(self).geo().n,
            parsed ==> crate::v1::spec_parse_v1_header(
                cl(old(self).mem(), old(self).geo(), f.first as int),
                f.header.start as int,
                old(self).geo().size as int,
            ) == Some(f.header),
        ensures
            final(self).inv(),
            final(self).keeps_device(old(self)),
            final(self).v1_map().len() == old(self).geo().n,
            final(keep)@.len() == old(self).geo().n,
            forall|c: int| #[trigger] flag(final(self).v1_map(), c) ==> flag(old(self).v1_map(), c),
            ({
                let g = old(self).geo();
                let m0 = old(self).mem();
                let m1 = final(self).mem();
                parsed && old(self).healthy() && wf(m0, g) && v1_guarded(m0, g, old(self).v1_map()) && flag(old(self).v1_map(), f.first as int) ==> {
                    &&& wf(m1, g)
                    &&& v1_guarded(m1, g, final(self).v1_map())
                    &&& forall|x: Seq<u8>| copies(m0, g, x).len() > 0 ==> #[trigger] copies(m1, g, x) == copies(m0, g, x)
                        && read_result(m1, g, x) == read_result(m0, g, x)
                    &&& forall|c: int| 0 <= c < g.n && #[trigger] flag(final(self).v1_map(), c) ==> cl(m1, g, c) == cl(m0, g, c)
                    &&& forall|c: int| 0 <= c < g.n && flag(old(self).v1_map(), c) && !#[trigger] flag(final(self).v1_map(), c) ==> c == f.first
                        || word0(m0, g, c) == crate::v1::V1_CONT_B
                    &&& forall|x: Seq<u8>| copies(m0, g, x).len() == 0 && #[trigger] read_result(m1, g, x) != read_result(m0, g, x) ==> (
                        read_result(m1, g, x) matches Ok(d) && v1_source_in(m0, g, old(self).v1_map(), x, d))
                }
            }),
            ({
                let g = old(self).geo();
                let m0 = old(self).mem();
                let a = MoveState { mem: m0, map: old(self).v1_map(), cursor: old(self).cursor(), keep: old(keep)@ };
                let b = MoveState { mem: final(self).mem(), map: final(self).v1_map(), cursor: final(self).cursor(), keep: final(keep)@ };
                parsed && old(self).healthy() && wf(m0, g) && v1_guarded(m0, g, old(self).v1_map()) && flag(old(self).v1_map(), f.first as int) ==> {
                    &&& kept == v1_kept(g, a, f)
                    &&& v1_step(g, a, f, b)
                }
            }),
    {
        let ghost g = self.geo();
        let ghost m0 = self.mem();
        let ghost good = parsed && self.healthy() && wf(m0, g) && v1_guarded(m0, g, self.v1_used@) && flag(self.v1_used@, f.first as int);
        let n = self.cluster_max_quantity;
        let chain = self.collect_v1_chain(f.first);
        if chain.len() as u32 != f.header.need_clusters() {
            return false;
        }
        proof {
            lemma_v1_need_bound(crate::v1::spec_payload_len(f.header.name_len as nat, f.header.data_len as nat));
            assert(chain@.len() * 4088 <= n * 4096) by (nonlinear_arith)
                requires
                    chain@.len() <= n,
            ;
            assert(n * 4096 <= 0x1_0000_0000);
        }
        let payload = match self.read_v1_payload(&f.header, &chain) {
            Some(p) => p,
            None => {
                mark_all(keep, &chain);
                return true;
            },
        };
        let (ds, de) = match crate::v1::split_v1_payload(payload.as_slice(), &f.header) {
            Some(r) => r,
            None => {
                return false;
            },
        };
        let name = slice_range(payload.as_slice(), 16, 16 + f.header.name_len);
        if !utf8_valid(name) {
            return false;
        }
        let present = self.find_files(name).len() > 0;
        let ghost ma = self.mem();
        let data = slice_range(payload.as_slice(), ds, de);
        proof {
            if good {
                let p = payload@;
                assert(v1_file_data(m0, g, f.first, f.header, chain@) == Some((name@, data@)));
                assert(forall|k: int| 0 <= k < chain@.len() ==> flag(self.v1_used@, #[trigger] chain@[k] as int)) by {
                    assert forall|k: int| 0 <= k < chain@.len() implies flag(self.v1_used@, #[trigger] chain@[k] as int) by {
                        if k >= 1 {
                            assert(word0(m0, g, chain@[k] as int) == crate::v1::V1_CONT_B);
                        }
                    }
                }
                assert(v1_source_in(m0, g, self.v1_used@, name@, data@));
            }
        }
        let moved = present || self.write_name(name, data).is_ok();
        if !moved {
            mark_all(keep, &chain);
            return true;
        }
        let ghost mb = self.mem();
        proof {
            if good {
                assert(ma == m0);
                assert(self.healthy());
                assert(wf(mb, g));
                assert forall|c: int| 0 <= c < g.n && flag(self.v1_used@, c) implies #[trigger] cl(mb, g, c) == cl(m0, g, c) by {
                    assert(!free_at(m0, g, self.v1_used@, c));
                }
                assert forall|x: Seq<u8>| copies(m0, g, x).len() > 0 implies #[trigger] copies(mb, g, x) == copies(m0, g, x)
                    && read_result(mb, g, x) == read_result(m0, g, x) by {
                    if !present {
                        assert(x != name@);
                    }
                }
                assert forall|x: Seq<u8>| #[trigger] read_result(mb, g, x) != read_result(m0, g, x) implies x == name@
                    && read_result(mb, g, x) == Ok::<Seq<u8>, StoreError>(data@) by {
                }
                assert forall|k: int| 0 <= k < chain@.len() implies #[trigger] flag(self.v1_used@, chain@[k] as int)
                    && word0(mb, g, chain@[k] as int) != MAGIC && word0(mb, g, chain@[k] as int) != CONT_B
                    && (k >= 1 ==> word0(m0, g, chain@[k] as int) == crate::v1::V1_CONT_B) by {
                    let c = chain@[k] as int;
                    if k >= 1 {
                        assert(word0(m0, g, c) == crate::v1::V1_CONT_B);
                    }
                    assert(flag(self.v1_used@, c));
                    assert(cl(mb, g, c) == cl(m0, g, c));
                }
            }
        }
        let ghost map_b = self.v1_used@;
        proof {
            if good {
                assert(v1_guarded(mb, g, map_b)) by {
                    assert forall|c: int| 0 <= c < g.n implies (#[trigger] flag(map_b, c) ==> word0(mb, g, c) != MAGIC && word0(mb, g, c) != CONT_B)
                        && (word0(mb, g, c) == crate::v1::V1_CONT_B ==> flag(map_b, c)) by {
                        if cl(mb, g, c) != cl(m0, g, c) {
                            if cl(mb, g, c) == crate::format::ff(4096) {
                                assert(cl(mb, g, c).subrange(0, 4) =~= crate::format::ff(4));
                                crate::format::lemma_word_ff(cl(mb, g, c), 0);
                            }
                        }
                    }
                }
            }
        }
        self.erase_v1_chain(&chain);
        proof {
            if good {
                let me = self.mem();
                assert forall|c: int| 0 <= c < g.n implies #[trigger] cl(me, g, c) == cl(mb, g, c) || (cl(me, g, c) == crate::format::ff(4096)
                    && word0(mb, g, c) != MAGIC && word0(mb, g, c) != CONT_B) by {
                    if chain@.contains(c as u32) {
                        let k = choose|k: int| 0 <= k < chain@.len() && chain@[k] == c as u32;
                        assert(word0(mb, g, chain@[k] as int) != MAGIC);
                    }
                }
                lemma_erase_outside_files(mb, me, g);
                assert forall|x: Seq<u8>| copies(m0, g, x).len() == 0 && #[trigger] read_result(me, g, x) != read_result(m0, g, x) implies (
                    read_result(me, g, x) matches Ok(d) && v1_source_in(m0, g, map_b, x, d)) by {
                    assert(read_result(me, g, x) == read_result(mb, g, x));
                }
                assert forall|c: int| 0 <= c < g.n && #[trigger] flag(self.v1_used@, c) implies cl(me, g, c) == cl(m0, g, c) by {
                    assert(!chain@.contains(c as u32));
                    assert(flag(map_b, c));
                }
                assert forall|c: int| 0 <= c < g.n && flag(map_b, c) && !#[trigger] flag(self.v1_used@, c) implies c == f.first
                    || word0(m0, g, c) == crate::v1::V1_CONT_B by {
                    assert(chain@.contains(c as u32));
                    let k = choose|k: int| 0 <= k < chain@.len() && chain@[k] == c as u32;
                    if k >= 1 {
                        assert(word0(m0, g, chain@[k] as int) == crate::v1::V1_CONT_B);
                    }
                }
                assert(v1_guarded(me, g, self.v1_used@)) by {
                    assert forall|c: int| 0 <= c < g.n implies (#[trigger] flag(self.v1_used@, c) ==> word0(me, g, c) != MAGIC && word0(me, g, c) != CONT_B)
                        && (word0(me, g, c) == crate::v1::V1_CONT_B ==> flag(self.v1_used@, c)) by {
                        if chain@.contains(c as u32) {
                            assert(cl(me, g, c) == crate::format::ff(4096));
                            lemma_ff_cluster(me, g, c);
                            assert(cl(me, g, c).subrange(0, 4) =~= crate::format::ff(4));
                            crate::format::lemma_word_ff(cl(me, g, c), 0);
                        } else {
                            assert(cl(me, g, c) == cl(mb, g, c));
                            assert(flag(self.v1_used@, c) == flag(map_b, c));
                        }
                    }
                }
            }
        }
        false
    }

    /// The files of the older format: the marked clusters that are not continuation
    /// clusters and start with a header that parses, ordered by data length.
    #[verifier::spinoff_prover]
    #[verifier::rlimit(60)]
    fn find_v1_files(&mut self) -> (found: Vec<V1File>)
        requires
            old(self).inv(),
            old(self).v1_map().len() == old(self).geo().n,
        ensures
            final(self).same(old(self)),
            forall|k: int| 0 <= k < found@.len() ==> {
                let f = #[trigger] found@[k];
                &&& f.first < old(self).geo().n
                &&& f.header.start + 20 <= CLUSTER_SIZE
                &&& f.header.name_len <= 4068
                &&& f.header.data_len <= u32::MAX
                &&& flag(old(self).v1_map(), f.first as int)
                &&& old(self).fits() ==> word0(old(self).mem(), old(self).geo(), f.first as int) != crate::v1::V1_CONT_B
                &&& old(self).fits() ==> crate::v1::spec_parse_v1_header(cl(old(self).mem(), old(self).geo(), f.first as int), f.header.start as int, old(self).geo().size as int) == Some(f.header)
            },
            forall|a: int, b: int| 0 <= a < b < found@.len() ==> (#[trigger] found@[a]).first != (#[trigger] found@[b]).first,
            forall|a: int, b: int| 0 <= a < b < found@.len() ==> (#[trigger] found@[a]).header.data_len <= (#[trigger] found@[b]).header.data_len,
            old(self).healthy() ==> forall|j: int| 0 <= j < found@.len() ==> v1_file_head(old(self).mem(), old(self).geo(), old(self).v1_map(), (#[trigger] found@[j]).first as int, found@[j].header),
            old(self).healthy() ==> forall|c: int, h: crate::v1::V1Header| #[trigger] v1_file_head(old(self).mem(), old(self).geo(), old(self).v1_map(), c, h)
                ==> exists|j: int| 0 <= j < found@.len() && #[trigger] found@[j].first as int == c,
    {
        let ghost g = self.geo();
        let ghost m0 = self.mem();
        let ghost map0 = self.v1_used@;
        let n = self.cluster_max_quantity;
        let mut found: Vec<V1File> = Vec::new();
        let mut i: u32 = 0;
        while i < n
            invariant
                self.same(old(self)),
                old(self).inv(),
                n == self.cluster_max_quantity,
                g == self.geo(),
                m0 == self.mem(),
                map0 == self.v1_used@,
                self.v1_used@.len() == n,
                i <= n,
                forall|k: int| 0 <= k < found@.len() ==> {
                    let f = #[trigger] found@[k];
                    &&& f.first < i
                    &&& f.header.start + 20 <= CLUSTER_SIZE
                    &&& f.header.name_len <= 4068
                    &&& f.header.data_len <= u32::MAX
                    &&& flag(map0, f.first as int)
                    &&& old(self).fits() ==> word0(m0, g, f.first as int) != crate::v1::V1_CONT_B
                    &&& old(self).fits() ==> crate::v1::spec_parse_v1_header(cl(m0, g, f.first as int), f.header.start as int, g.size as int) == Some(f.header)
                },
                forall|a: int, b: int| 0 <= a < b < found@.len() ==> (#[trigger] found@[a]).first != (#[trigger] found@[b]).first,
                forall|a: int, b: int| 0 <= a < b < found@.len() ==> (#[trigger] found@[a]).header.data_len <= (#[trigger] found@[b]).header.data_len,
                old(self).healthy() ==> forall|j: int| 0 <= j < found@.len() ==> v1_file_head(m0, g, map0, (#[trigger] found@[j]).first as int, found@[j].header),
                old(self).healthy() ==> forall|c: int, h: crate::v1::V1Header| 0 <= c < i && #[trigger] v1_file_head(m0, g, map0, c, h)
                    ==> exists|j: int| 0 <= j < found@.len() && #[trigger] found@[j].first as int == c,
            decreases n - i,
        {
            let ghost fb = found@;
            let ghost mut added = false;
            proof {
                if old(self).healthy() {
                    assert forall|c: int, h: crate::v1::V1Header| 0 <= c < i && #[trigger] v1_file_head(m0, g, map0, c, h) implies exists|j: int|
                        0 <= j < fb.len() && #[trigger] fb[j].first as int == c by {}
                }
            }
            if self.v1_used[i as usize] {
                if let Ok(buf) = self.read_cluster(i) {
                    if word_at(buf.as_slice(), 0) != crate::v1::V1_CONT_B {
                        if let Some(start) = crate::v1::find_v1_file_start(buf.as_slice()) {
                            if let Some(header) = crate::v1::parse_v1_header(buf.as_slice(), start, self.flash_size as usize) {
                                let ghost before = found@;
                                let e = V1File { first: i, header };
                                let p = insert_by_len(&mut found, e);
                                proof {
                                    assert forall|k: int| 0 <= k < found@.len() implies found@[k] == e || before.contains(#[trigger] found@[k]) by {
                                        if k < p {
                                            assert(found@[k] == before[k]);
                                        } else if k > p {
                                            assert(found@[k] == before[k - 1]);
                                        }
                                    }
                                    assert forall|a: int, b: int| 0 <= a < b < found@.len() implies (#[trigger] found@[a]).first != (#[trigger] found@[b]).first by {
                                        let fa = found@[a];
                                        let fb = found@[b];
                                        if a != p && b != p {
                                            let a0 = if a < p { a } else { a - 1 };
                                            let b0 = if b < p { b } else { b - 1 };
                                            assert(fa == before[a0]);
                                            assert(fb == before[b0]);
                                        } else if a == p {
                                            let b0 = b - 1;
                                            assert(fb == before[b0]);
                                        } else {
                                            assert(fa == before[a]);
                                        }
                                    }
                                    assert forall|k: int| 0 <= k < found@.len() implies {
                                        let f = #[trigger] found@[k];
                                        &&& f.first < i + 1
                                        &&& f.header.start + 20 <= CLUSTER_SIZE
                                        &&& f.header.name_len <= 4068
                                        &&& f.header.data_len <= u32::MAX
                                        &&& flag(map0, f.first as int)
                                        &&& old(self).fits() ==> word0(m0, g, f.first as int) != crate::v1::V1_CONT_B
                                        &&& old(self).fits() ==> crate::v1::spec_parse_v1_header(cl(m0, g, f.first as int), f.header.start as int, g.size as int) == Some(f.header)
                                    } by {
                                        if found@[k] != e {
                                            let t = choose|t: int| 0 <= t < before.len() && before[t] == found@[k];
                                            assert(before[t] == found@[k]);
                                        }
                                    }
                                    if old(self).healthy() {
                                        assert(v1_file_head(m0, g, map0, i as int, header));
                                        assert forall|j: int| 0 <= j < found@.len() implies v1_file_head(m0, g, map0, (#[trigger] found@[j]).first as int, found@[j].header) by {
                                            if found@[j] != e {
                                                let t = choose|t: int| 0 <= t < before.len() && before[t] == found@[j];
                                                assert(before[t] == found@[j]);
                                            }
                                        }
                                        assert forall|j: int| 0 <= j < before.len() implies exists|j2: int| 0 <= j2 < found@.len() && found@[j2].first as int
                                            == (#[trigger] before[j]).first as int by {
                                            if j < p {
                                                assert(found@[j] == before[j]);
                                            } else {
                                                assert(found@[j + 1] == before[j]);
                                            }
                                        }
                                        assert(found@[p as int] == e);
                                        assert(found@[p as int].first as int == i as int);
                                    }
                                    added = true;
                                }
                            } else {
                                proof {
                                    if old(self).healthy() {
                                        assert forall|h: crate::v1::V1Header| !v1_file_head(m0, g, map0, i as int, h) by {
                                            if v1_file_head(m0, g, map0, i as int, h) {
                                                lemma_ff_run_unique(buf@, start as int, h.start as int);
                                            }
                                        }
                                    }
                                }
                            }
                        } else {
                            proof {
                                if old(self).healthy() {
                                    assert forall|h: crate::v1::V1Header| !v1_file_head(m0, g, map0, i as int, h) by {
                                        if v1_file_head(m0, g, map0, i as int, h) {
                                            assert(crate::v1::ff_run_end(buf@, h.start as int));
                                        }
                                    }
                                }
                            }
                        }
                    }
                }
            }
            proof {
                if old(self).healthy() {
                    assert forall|c: int, h: crate::v1::V1Header| 0 <= c < i + 1 && #[trigger] v1_file_head(m0, g, map0, c, h) implies exists|j: int|
                        0 <= j < found@.len() && #[trigger] found@[j].first as int == c by {
                        if c < i {
                            let j0 = choose|j: int| 0 <= j < fb.len() && #[trigger] fb[j].first as int == c;
                            if found@ != fb {
                                assert(exists|j2: int| 0 <= j2 < found@.len() && #[trigger] found@[j2].first as int == fb[j0].first as int);
                            }
                        } else if !added {
                            assert(!v1_file_head(m0, g, map0, i as int, h));
                        }
                    }
                }
            }
            i = i + 1;
        }
        proof {
            if old(self).healthy() {
                assert forall|c: int, h: crate::v1::V1Header| #[trigger] v1_file_head(m0, g, map0, c, h)
                    implies exists|j: int| 0 <= j < found@.len() && #[trigger] found@[j].first as int == c by {
                    assert(0 <= c < i);
                }
            }
        }
        found
    }

    /// Moves the files of the older format to the current one: each is copied whole
    /// first and erased after, so the migration can be cut by a power loss at any point
    /// and resumes at the next start. Smaller files go first. A file that cannot be
    /// moved now (no space, a read error) is kept as it is, with its clusters still
    /// marked taken; a damaged one is reclaimed. A name that already has a file in the
    /// current format keeps that file.
    #[verifier::spinoff_prover]
    #[verifier::rlimit(100)]
    fn migrate_v1(&mut self)
        requires
            old(self).inv(),
        ensures
            final(self).inv(),
            final(self).keeps_device(old(self)),
            old(self).v1_map().len() == 0 ==> final(self).same(old(self)),
            final(self).v1_map().len() == 0 || (final(self).v1_map().len() == old(self).v1_map().len()
                && forall|c: int| 0 <= c < final(self).v1_map().len() && #[trigger] final(self).v1_map()[c] ==> old(self).v1_map()[c]),
            ({
                let g = old(self).geo();
                let m0 = old(self).mem();
                old(self).healthy() && wf(m0, g) && v1_guarded(m0, g, old(self).v1_map()) ==> {
                    &&& wf(final(self).mem(), g)
                    &&& forall|x: Seq<u8>| copies(m0, g, x).len() > 0 ==> #[trigger] read_result(final(self).mem(), g, x) == read_result(m0, g, x)
                    &&& forall|x: Seq<u8>| copies(m0, g, x).len() == 0 ==> #[trigger] read_result(final(self).mem(), g, x) == Err::<Seq<u8>, StoreError>(
                        StoreError::NotFound) || (read_result(final(self).mem(), g, x) matches Ok(d) && v1_source(m0, g, x, d))
                    &&& forall|c: int| 0 <= c < g.n && #[trigger] flag(old(self).v1_map(), c) && word0(m0, g, c) != crate::v1::V1_CONT_B && !v1_head(m0, g, c)
                        ==> !flag(final(self).v1_map(), c) && cl(final(self).mem(), g, c) == crate::format::ff(4096)
                    &&& exists|fs: Seq<V1File>, st: Seq<MoveState>| v1_migration(m0, g, old(self).v1_map(), old(self).cursor(), fs, st, final(self).mem(), final(self).v1_map())
                }
            }),
    {
        if self.v1_used.len() == 0 {
            proof {
                let g = self.geo();
                let m0 = self.mem();
                let st0 = MoveState { mem: m0, map: self.v1_used@, cursor: self.write_cursor, keep: Seq::new(g.n as nat, |c: int| false) };
                let st = seq![st0];
                assert(!some_kept(g, st0.keep));
                assert(self.v1_used@ =~= Seq::<bool>::empty());
                assert(v1_migration(m0, g, self.v1_used@, self.write_cursor, Seq::<V1File>::empty(), st, m0, self.v1_used@));
            }
            return;
        }
        let ghost g = self.geo();
        let ghost m0 = self.mem();
        let ghost map0 = self.v1_used@;
        let ghost good = self.healthy() && wf(m0, g) && v1_guarded(m0, g, map0);
        let n = self.cluster_max_quantity;
        let found = self.find_v1_files();
        let mut keep: Vec<bool> = vec![false; n as usize];
        let mut any_kept = false;
        let mut k: usize = 0;
        let ghost cursor0 = self.write_cursor;
        let ghost mut st: Seq<MoveState> = seq![MoveState { mem: m0, map: map0, cursor: cursor0, keep: keep@ }];
        proof {
            assert(keep@ =~= Seq::new(g.n as nat, |c: int| false));
        }
        while k < found.len()
            invariant
                cursor0 == old(self).cursor(),
                good ==> st.len() == k + 1,
                good ==> st[0] == (MoveState { mem: m0, map: map0, cursor: cursor0, keep: Seq::new(g.n as nat, |c: int| false) }),
                good ==> st.last() == (MoveState { mem: self.mem(), map: self.v1_used@, cursor: self.cursor(), keep: keep@ }),
                good ==> forall|j: int| 0 <= j < k ==> v1_step(g, #[trigger] st[j], found@[j], st[j + 1]),
                good ==> any_kept == some_kept(g, keep@),
                forall|a: int, b: int| 0 <= a < b < found@.len() ==> (#[trigger] found@[a]).header.data_len <= (#[trigger] found@[b]).header.data_len,
                old(self).healthy() ==> forall|j: int| 0 <= j < found@.len() ==> v1_file_head(m0, g, map0, (#[trigger] found@[j]).first as int, found@[j].header),
                old(self).healthy() ==> forall|c: int, h: crate::v1::V1Header| #[trigger] v1_file_head(m0, g, map0, c, h)
                    ==> exists|j: int| 0 <= j < found@.len() && #[trigger] found@[j].first as int == c,
                self.inv(),
                self.keeps_device(old(self)),
                old(self).inv(),
                n == self.cluster_max_quantity,
                g == self.geo(),
                self.v1_used@.len() == n,
                forall|c: int| #[trigger] flag(self.v1_used@, c) ==> flag(map0, c),
                keep@.len() == n,
                k <= found@.len(),
                forall|j: int| 0 <= j < found@.len() ==> {
                    let f = #[trigger] found@[j];
                    &&& f.first < n
                    &&& f.header.start + 20 <= CLUSTER_SIZE
                    &&& f.header.name_len <= 4068
                    &&& f.header.data_len <= u32::MAX
                },
                forall|a: int, b: int| 0 <= a < b < found@.len() ==> (#[trigger] found@[a]).first != (#[trigger] found@[b]).first,
                good == (old(self).healthy() && wf(m0, g) && v1_guarded(m0, g, map0)),
                m0 == old(self).mem(),
                map0 == old(self).v1_map(),
                good ==> self.healthy(),
                good ==> wf(self.mem(), g),
                good ==> v1_guarded(self.mem(), g, self.v1_used@),
                good ==> forall|x: Seq<u8>| copies(m0, g, x).len() > 0 ==> #[trigger] copies(self.mem(), g, x) == copies(m0, g, x)
                    && read_result(self.mem(), g, x) == read_result(m0, g, x),
                good ==> forall|c: int| 0 <= c < g.n && #[trigger] flag(self.v1_used@, c) ==> cl(self.mem(), g, c) == cl(m0, g, c),
                good ==> forall|j: int| k <= j < found@.len() ==> flag(self.v1_used@, (#[trigger] found@[j]).first as int)
                    && word0(m0, g, found@[j].first as int) != crate::v1::V1_CONT_B
                    && crate::v1::spec_parse_v1_header(cl(m0, g, found@[j].first as int), found@[j].header.start as int, g.size as int) == Some(found@[j].header),
                good ==> forall|x: Seq<u8>| copies(m0, g, x).len() == 0 ==> #[trigger] read_result(self.mem(), g, x) == Err::<Seq<u8>, StoreError>(StoreError::NotFound)
                    || (read_result(self.mem(), g, x) matches Ok(d) && v1_source(m0, g, x, d)),
                good ==> forall|c: int| 0 <= c < n && #[trigger] keep@[c] ==> word0(m0, g, c) == crate::v1::V1_CONT_B || v1_head(m0, g, c),
                good ==> forall|c: int| 0 <= c < g.n && #[trigger] flag(map0, c) && word0(m0, g, c) != crate::v1::V1_CONT_B && !v1_head(m0, g, c)
                    ==> flag(self.v1_used@, c),
            decreases found@.len() - k,
        {
            let f = found[k];
            let ghost mk = self.mem();
            let ghost mapk = self.v1_used@;
            proof {
                if good {
                    assert(flag(mapk, f.first as int));
                    assert(cl(mk, g, f.first as int) == cl(m0, g, f.first as int));
                }
            }
            let ghost keep_k = keep@;
            let ghost cursor_k = self.write_cursor;
            let kept = self.migrate_one(f, &mut keep, Ghost(good));
            if kept {
                any_kept = true;
            }
            proof {
                let sa = MoveState { mem: mk, map: mapk, cursor: cursor_k, keep: keep_k };
                let sb = MoveState { mem: self.mem(), map: self.v1_used@, cursor: self.cursor(), keep: keep@ };
                if good {
                    assert(v1_step(g, sa, f, sb));
                    let st2 = st.push(sb);
                    assert forall|j: int| 0 <= j < k + 1 implies v1_step(g, #[trigger] st2[j], found@[j], st2[j + 1]) by {
                        if j < k {
                            assert(st2[j] == st[j] && st2[j + 1] == st[j + 1]);
                        } else {
                            assert(st2[j] == st.last());
                        }
                    }
                    st = st2;
                }
            }
            proof {
                if good {
                    let m1 = self.mem();
                    lemma_mig_keep(m0, g, map0, f, MoveState { mem: mk, map: mapk, cursor: cursor_k, keep: keep_k },
                        MoveState { mem: m1, map: self.v1_used@, cursor: self.cursor(), keep: keep@ });
                    assert forall|c: int| 0 <= c < g.n && #[trigger] flag(self.v1_used@, c) implies cl(m1, g, c) == cl(m0, g, c) by {
                        assert(flag(mapk, c));
                    }
                    lemma_mig_reads(m0, g, mk, mapk, m1);
                    assert forall|j: int| k + 1 <= j < found@.len() implies flag(self.v1_used@, (#[trigger] found@[j]).first as int)
                        && word0(m0, g, found@[j].first as int) != crate::v1::V1_CONT_B
                        && crate::v1::spec_parse_v1_header(cl(m0, g, found@[j].first as int), found@[j].header.start as int, g.size as int) == Some(found@[j].header) by {
                        let c = found@[j].first as int;
                        assert(flag(mapk, c));
                        assert(found@[k as int].first != found@[j].first);
                        assert(cl(mk, g, c) == cl(m0, g, c));
                    }
                }
            }
            k = k + 1;
        }
        let ghost z = st.last();
        let ghost map_pre = self.v1_used@;
        self.sweep_v1(&keep, any_kept);
        proof {
            assert forall|c: int| 0 <= c < self.v1_used@.len() && #[trigger] self.v1_used@[c] implies map0[c] by {
                assert(flag(map_pre, c));
            }
            if good {
                lemma_migrate_end(m0, g, map0, cursor0, found@, st, self.mem(), self.v1_used@);
            }
        }
    }

    /// Erases and unmarks every marked cluster not in `keep`, and drops the map when
    /// nothing was kept.
    fn sweep_v1(&mut self, keep: &Vec<bool>, any_kept: bool)
        requires
            old(self).inv(),
            old(self).v1_map().len() == old(self).geo().n,
            keep@.len() == old(self).geo().n,
        ensures
            final(self).inv(),
            final(self).keeps_device(old(self)),
            final(self).cursor() == old(self).cursor(),
            final(self).v1_map() == (if any_kept {
                Seq::new(old(self).geo().n as nat, |c: int| old(self).v1_map()[c] && keep@[c])
            } else {
                Seq::<bool>::empty()
            }),
            old(self).healthy() ==> forall|c: int| 0 <= c < old(self).geo().n ==> #[trigger] cl(final(self).mem(), old(self).geo(), c) == (
                if old(self).v1_map()[c] && !keep@[c] {
                    crate::format::ff(4096)
                } else {
                    cl(old(self).mem(), old(self).geo(), c)
                }),
    {
        let n = self.cluster_max_quantity;
        let ghost g = self.geo();
        let ghost m0 = self.mem();
        let ghost map0 = self.v1_used@;
        let mut i: u32 = 0;
        while i < n
            invariant
                self.inv(),
                self.keeps_device(old(self)),
                self.cursor() == old(self).cursor(),
                n == self.cluster_max_quantity,
                g == self.geo(),
                g == old(self).geo(),
                m0 == old(self).mem(),
                map0 == old(self).v1_map(),
                keep@.len() == n,
                self.v1_used@.len() == n,
                i <= n,
                forall|c: int| 0 <= c < n ==> #[trigger] self.v1_used@[c] == (map0[c] && (c < i ==> keep@[c])),
                old(self).healthy() ==> self.healthy(),
                old(self).healthy() ==> forall|c: int| 0 <= c < n ==> #[trigger] cl(self.mem(), g, c) == (if c < i && map0[c] && !keep@[c] {
                    crate::format::ff(4096)
                } else {
                    cl(m0, g, c)
                }),
            decreases n - i,
        {
            let ghost mem_i = self.mem();
            let ghost map_i = self.v1_used@;
            if self.v1_used[i as usize] && !keep[i as usize] {
                let _ = self.erase_cluster(i);
                self.v1_used.set(i as usize, false);
                proof {
                    if old(self).healthy() {
                        lemma_cl_update(mem_i, g, i as int, crate::format::ff(4096));
                    }
                }
            }
            proof {
                if old(self).healthy() {
                    assert forall|c: int| 0 <= c < n implies #[trigger] cl(self.mem(), g, c) == (if c < i + 1 && map0[c] && !keep@[c] {
                        crate::format::ff(4096)
                    } else {
                        cl(m0, g, c)
                    }) by {
                        if c != i as int {
                            assert(cl(self.mem(), g, c) == cl(mem_i, g, c));
                        }
                    }
                }
                assert forall|c: int| 0 <= c < n implies #[trigger] self.v1_used@[c] == (map0[c] && (c < i + 1 ==> keep@[c])) by {
                    if c != i as int {
                        assert(self.v1_used@[c] == map_i[c]);
                    }
                }
            }
            i = i + 1;
        }
        if !any_kept {
            self.v1_used = Vec::new();
        } else {
            proof {
                assert(self.v1_used@ =~= Seq::new(g.n as nat, |c: int| map0[c] && keep@[c]));
            }
        }
    }
}

/// Marks the clusters of `chain` in `keep`.
fn mark_all(keep: &mut Vec<bool>, chain: &Vec<u32>)
    requires
        forall|j: int| 0 <= j < chain@.len() ==> #[trigger] chain@[j] < old(keep)@.len(),
    ensures
        final(keep)@.len() == old(keep)@.len(),
        forall|c: int| 0 <= c < old(keep)@.len() ==> #[trigger] final(keep)@[c] == (old(keep)@[c] || exists|j: int| 0 <= j < chain@.len() && #[trigger] chain@[j] as int == c),
{
    let mut t: usize = 0;
    while t < chain.len()
        invariant
            keep@.len() == old(keep)@.len(),
            t <= chain@.len(),
            forall|j: int| 0 <= j < chain@.len() ==> #[trigger] chain@[j] < old(keep)@.len(),
            forall|c: int| 0 <= c < old(keep)@.len() ==> #[trigger] keep@[c] == (old(keep)@[c] || exists|j: int| 0 <= j < t && #[trigger] chain@[j] as int == c),
        decreases chain@.len() - t,
    {
        let ghost before = keep@;
        keep.set(chain[t] as usize, true);
        proof {
            assert forall|c: int| 0 <= c < old(keep)@.len() implies #[trigger] keep@[c] == (old(keep)@[c] || exists|j: int| 0 <= j < t + 1 && #[trigger] chain@[j] as int == c) by {
                if c == chain@[t as int] as int {
                    assert(chain@[t as int] as int == c);
                } else {
                    assert(keep@[c] == before[c]);
                    if exists|j: int| 0 <= j < t + 1 && #[trigger] chain@[j] as int == c {
                        let j = choose|j: int| 0 <= j < t + 1 && #[trigger] chain@[j] as int == c;
                        assert(j < t);
                    }
                }
            }
        }
        t = t + 1;
    }
}

/// Cluster `c` is marked in the map of the older format.
pub open spec fn flag(v1: Seq<bool>, c: int) -> bool {
    0 <= c < v1.len() && v1[c]
}

/// The map of the older format and the partition agree: a marked cluster holds neither
/// a header nor a continuation of the current format, and every continuation cluster of
/// the older format is marked.
pub open spec fn v1_guarded(mem: Seq<u8>, g: Geo, v1: Seq<bool>) -> bool {
    forall|c: int|
        0 <= c < g.n ==> (#[trigger] flag(v1, c) ==> word0(mem, g, c) != MAGIC && word0(mem, g, c) != CONT_B) && (word0(mem, g, c)
            == crate::v1::V1_CONT_B ==> flag(v1, c))
}

/// No cluster of the partition holds data of the older format.
pub open spec fn no_v1(mem: Seq<u8>, g: Geo) -> bool {
    forall|i: int| 0 <= i < g.n ==> !#[trigger] looks_v1(mem, g, i)
}

/// After healing, the map of the older format that a scan of the partition made
/// before it still agrees with the partition.
proof fn lemma_scan_guards(m0: Seq<u8>, m1: Seq<u8>, g: Geo)
    requires
        g.base + g.n * 4096 <= m0.len(),
        m1.len() == m0.len(),
        forall|c: int| 0 <= c < g.n ==> #[trigger] cl(m1, g, c) == healed(m0, g, c),
    ensures
        v1_guarded(m1, g, v1_scan(m0, g)),
{
    let map = v1_scan(m0, g);
    assert((MAGIC >> 24u32) as u8 == 1u8 && (CONT_B >> 24u32) as u8 == 1u8) by (bit_vector);
    assert forall|c: int| 0 <= c < g.n implies (#[trigger] flag(map, c) ==> word0(m1, g, c) != MAGIC && word0(m1, g, c) != CONT_B)
        && (word0(m1, g, c) == crate::v1::V1_CONT_B ==> flag(map, c)) by {
        crate::format::lemma_word_top(cl(m0, g, c), 0);
        if flag(map, c) {
            assert(looks_v1(m0, g, c));
            assert(word0(m0, g, c) != MAGIC && word0(m0, g, c) != CONT_B);
            assert(cl(m1, g, c) == cl(m0, g, c));
        }
        if word0(m1, g, c) == crate::v1::V1_CONT_B {
            if cl(m1, g, c) != cl(m0, g, c) {
                assert(cl(m1, g, c) == crate::format::ff(4096));
                assert(cl(m1, g, c).subrange(0, 4) =~= crate::format::ff(4));
                crate::format::lemma_word_ff(cl(m1, g, c), 0);
            }
            assert(looks_v1(m0, g, c));
        }
    }
}

/// An erased cluster holds no header of the older format.
proof fn lemma_v1_parse_ff(start: int, size: int)
    requires
        0 <= start,
    ensures
        crate::v1::spec_parse_v1_header(crate::format::ff(4096), start, size) is None,
{
    let c = crate::format::ff(4096);
    if 0 <= start && start + 20 <= 4096 {
        assert(c.subrange(start + 4, start + 8) =~= crate::format::ff(4));
        crate::format::lemma_word_ff(c, start + 4);
    }
}

/// Healing leaves the files of the older format as they were.
proof fn lemma_v1_source_heal(m0: Seq<u8>, m1: Seq<u8>, g: Geo, x: Seq<u8>, d: Seq<u8>)
    requires
        forall|c: int| 0 <= c < g.n ==> #[trigger] cl(m1, g, c) == healed(m0, g, c),
        v1_source(m1, g, x, d),
    ensures
        v1_source(m0, g, x, d),
{
    let (first, h, chain) = choose|first: u32, h: crate::v1::V1Header, chain: Seq<u32>| #[trigger] v1_file_data(m1, g, first, h, chain) == Some((x, d));
    assert forall|t: int| 0 <= t < chain.len() implies #[trigger] cl(m0, g, chain[t] as int) == cl(m1, g, chain[t] as int) by {
        let c = chain[t] as int;
        if cl(m1, g, c) != cl(m0, g, c) {
            assert(cl(m1, g, c) == crate::format::ff(4096));
            if t == 0 {
                lemma_v1_parse_ff(h.start as int, g.size as int);
            } else {
                assert(word0(m1, g, c) == crate::v1::V1_CONT_B);
                assert(cl(m1, g, c).subrange(0, 4) =~= crate::format::ff(4));
                crate::format::lemma_word_ff(cl(m1, g, c), 0);
            }
        }
    }
    lemma_v1_frame(m1, m0, g, first, h, chain);
    assert(v1_file_data(m0, g, first, h, chain) == Some((x, d)));
}

/// Every cluster of the partition is erased.
pub open spec fn erased(mem: Seq<u8>, g: Geo) -> bool {
    forall|c: int| 0 <= c < g.n ==> #[trigger] cl(mem, g, c) == crate::format::ff(4096)
}

/// An erased partition holds no data of the older format.
/// An erased cluster, a header cluster or a continuation cluster does not look like
/// data of the older format.
pub proof fn lemma_cluster_not_v1(mem: Seq<u8>, g: Geo, i: int)
    requires
        cl(mem, g, i) == crate::format::ff(4096) || word0(mem, g, i) == MAGIC || word0(mem, g, i) == CONT_B,
    ensures
        !looks_v1(mem, g, i),
{
    let c = cl(mem, g, i);
    if c == crate::format::ff(4096) {
        lemma_ff_cluster(mem, g, i);
        assert(c.subrange(0, 4) =~= crate::format::ff(4));
        crate::format::lemma_word_ff(c, 0);
        if v1_start_ok(c) {
            let k = choose|k: int| #[trigger] crate::v1::ff_run_end(c, k) && k + 4 <= c.len() && spec_word(c, k) == crate::v1::V1_MAGIC;
            assert(c[k] == 0xFFu8);
        }
    } else {
        crate::format::lemma_word_top(c, 0);
        assert((0x01312AABu32 >> 24u32) as u8 == 1u8) by (bit_vector);
        assert((0x01312AADu32 >> 24u32) as u8 == 1u8) by (bit_vector);
    }
}

/// A device whose bytes are all erased holds an erased partition wherever it lies.
pub proof fn lemma_fresh_erased(mem: Seq<u8>, g: Geo)
    requires
        mem == Seq::new(mem.len(), |i: int| 0xFFu8),
        g.base + g.n * 4096 <= mem.len(),
    ensures
        erased(mem, g),
{
    assert forall|c: int| 0 <= c < g.n implies #[trigger] cl(mem, g, c) == crate::format::ff(4096) by {
        assert(g.base + c * 4096 + 4096 <= g.base + g.n * 4096) by (nonlinear_arith)
            requires
                0 <= c < g.n,
        ;
        assert(cl(mem, g, c) =~= crate::format::ff(4096));
    }
}

proof fn lemma_erased_no_v1(mem: Seq<u8>, g: Geo)
    requires
        erased(mem, g),
    ensures
        no_v1(mem, g),
{
    assert forall|i: int| 0 <= i < g.n implies !#[trigger] looks_v1(mem, g, i) by {
        let c = cl(mem, g, i);
        lemma_ff_cluster(mem, g, i);
        assert(c.subrange(0, 4) =~= crate::format::ff(4));
        crate::format::lemma_word_ff(c, 0);
        if v1_start_ok(c) {
            let k = choose|k: int| #[trigger] crate::v1::ff_run_end(c, k) && k + 4 <= c.len() && spec_word(c, k) == crate::v1::V1_MAGIC;
            assert(c[k] == 0xFFu8);
        }
    }
}

/// A blank partition without clusters of the older format has no taken cluster.
proof fn lemma_blank_last_used(mem: Seq<u8>, g: Geo, k: nat)
    requires
        blank(mem, g),
        k <= g.n,
    ensures
        last_used(mem, g, Seq::empty(), k) is None,
    decreases k,
{
    if k > 0 {
        assert(word0(mem, g, k - 1) != MAGIC);
        lemma_blank_last_used(mem, g, (k - 1) as nat);
    }
}

impl<F: Flash> Store<F> {
    /// Create a store on `flash`, managing `flash_size` bytes starting at `flash_addr`.
    ///
    /// `flash_addr` must be 4096-aligned and `flash_size` at least 4096; the size is
    /// rounded down to a multiple of 4096. On construction the whole area is scanned:
    /// leftovers from interrupted writes are reclaimed, duplicated files (power loss
    /// during overwrite) are resolved to the newest generation, and files written in
    /// the older format are migrated to the current one (copy first, erase after, so a
    /// power loss at any point is safe).
    pub fn new(flash: F, flash_addr: u32, flash_size: u32) -> (s: Self)
        requires
            flash_size >= 4096,
            flash_addr % 4096 == 0,
            flash_addr + flash_size / 4096 * 4096 <= 0x1_0000_0000,
        ensures
            s.inv(),
            s.geo() == (Geo { base: flash_addr, n: flash_size / 4096, size: flash_size }),
            s.device().reliable() == flash.reliable(),
            s.device().contents().len() == flash.contents().len(),
            s.healthy() == (flash.reliable() && flash_addr + flash_size / 4096 * 4096 <= flash.contents().len()),
            s.healthy() && no_v1(flash.contents(), s.geo()) ==> {
                let g = s.geo();
                &&& s.v1_map() == Seq::<bool>::empty()
                &&& forall|c: int| 0 <= c < g.n ==> #[trigger] cl(s.mem(), g, c) == healed(flash.contents(), g, c)
                &&& s.cursor() == (match last_used(s.mem(), g, Seq::empty(), g.n as nat) {
                    Some(h) => ((h + 1) as int % (g.n as int)) as u32,
                    None => 0u32,
                })
                &&& forall|x: Seq<u8>| #[trigger] read_result(s.mem(), g, x) == reopened_read(flash.contents(), g, x)
                &&& forall|x: Seq<u8>| #[trigger] copies(s.mem(), g, x).len() <= 1
            },
            s.healthy() && no_v1(flash.contents(), s.geo()) && wf(flash.contents(), s.geo()) ==> {
                let g = s.geo();
                &&& wf(s.mem(), g)
                &&& forall|x: Seq<u8>| #[trigger] read_result(s.mem(), g, x) == read_result(flash.contents(), g, x)
            },
            s.healthy() && wf(flash.contents(), s.geo()) ==> {
                let g = s.geo();
                &&& wf(s.mem(), g)
                &&& forall|x: Seq<u8>| copies(flash.contents(), g, x).len() > 0 ==> #[trigger] read_result(s.mem(), g, x) == read_result(flash.contents(), g, x)
            },
            s.healthy() ==> exists|m1: Seq<u8>, fs: Seq<V1File>, st: Seq<MoveState>|
                #[trigger] opened(flash.contents(), s.geo(), m1, fs, st, s.mem(), s.v1_map()),
            s.healthy() && wf(flash.contents(), s.geo()) ==> forall|x: Seq<u8>| copies(flash.contents(), s.geo(), x).len() == 0
                ==> #[trigger] read_result(s.mem(), s.geo(), x) == Err::<Seq<u8>, StoreError>(StoreError::NotFound)
                    || (read_result(s.mem(), s.geo(), x) matches Ok(d) && v1_source(flash.contents(), s.geo(), x, d)),
            s.healthy() && erased(flash.contents(), s.geo()) ==> {
                let g = s.geo();
                &&& s.v1_map() == Seq::<bool>::empty()
                &&& s.cursor() == 0
                &&& wf(s.mem(), g)
                &&& used_upto(s.mem(), g, s.v1_map(), g.n as nat) == 0
                &&& forall|c: int| 0 <= c < g.n ==> #[trigger] cl(s.mem(), g, c) == cl(flash.contents(), g, c)
                &&& forall|x: Seq<u8>| #[trigger] read_result(s.mem(), g, x) == Err::<Seq<u8>, StoreError>(StoreError::NotFound)
            },
    {
        let n = flash_size / 4096;
        let mut store = Store {
            flash,
            flash_addr,
            flash_size,
            cluster_max_quantity: n,
            write_cursor: 0,
            v1_used: Vec::new(),
            written: Ghost(Seq::empty()),
        };
        let ghost g = store.geo();
        let ghost m0 = store.mem();
        store.scan_v1();
        proof {
            if store.healthy() && no_v1(m0, g) {
                assert(store.v1_used@ == Seq::<bool>::empty());
            }
        }
        store.heal();
        let ghost m1 = store.mem();
        proof {
            if store.healthy() && wf(m0, g) {
                lemma_heal_wf(m0, m1, g);
                lemma_scan_guards(m0, m1, g);
            }
        }
        store.write_cursor = store.init_cursor();
        let ghost map_s = store.v1_used@;
        let ghost cursor_s = store.write_cursor;
        store.migrate_v1();
        proof {
            if store.healthy() {
                assert(map_s == v1_scan(m0, g));
                lemma_heal_valid(m0, m1, g);
                if wf(m1, g) {
                    lemma_scan_guards(m0, m1, g);
                    let (fs, st) = choose|fs: Seq<V1File>, st: Seq<MoveState>| v1_migration(m1, g, map_s, cursor_s, fs, st, store.mem(), store.v1_used@);
                    assert(v1_migration(m1, g, map_s, cursor_s, fs, st, store.mem(), store.v1_used@));
                    assert(opened(m0, g, m1, fs, st, store.mem(), store.v1_used@));
                } else {
                    assert(opened(m0, g, m1, Seq::<V1File>::empty(), Seq::<MoveState>::empty(), store.mem(), store.v1_used@));
                }
            }
        }
        proof {
            if store.healthy() && wf(m0, g) {
                assert forall|x: Seq<u8>| copies(m0, g, x).len() == 0 implies #[trigger] read_result(store.mem(), g, x) == Err::<Seq<u8>, StoreError>(StoreError::NotFound)
                    || (read_result(store.mem(), g, x) matches Ok(d) && v1_source(m0, g, x, d)) by {
                    assert(copies(m1, g, x) == copies(m0, g, x));
                    if let Ok(d) = read_result(store.mem(), g, x) {
                        lemma_v1_source_heal(m0, m1, g, x, d);
                    }
                }
            }
        }
        proof {
            assert(store.geo() == g);
            if store.healthy() && erased(m0, g) {
                lemma_erased_no_v1(m0, g);
            }
            if store.healthy() && no_v1(m0, g) {
                assert(store.mem() == m1);
                lemma_heal_outcome(m0, m1, g);
                assert forall|x: Seq<u8>| #[trigger] copies(m1, g, x).len() <= 1 by {
                    assert(copies(m1, g, x) == (match winner(m0, g, x) {
                        Some(w) => seq![w],
                        None => Seq::<FoundFile>::empty(),
                    }));
                }
                if wf(m0, g) {
                    lemma_heal_wf(m0, m1, g);
                }
                if erased(m0, g) {
                    assert forall|c: int| 0 <= c < g.n implies #[trigger] word0(m1, g, c) != MAGIC && word0(m1, g, c) != CONT_B by {
                        lemma_ff_cluster(m0, g, c);
                        assert(cl(m1, g, c) == cl(m0, g, c));
                    }
                    lemma_blank(m1, g, Seq::empty());
                    assert forall|x: Seq<u8>| #[trigger] read_result(m1, g, x) == Err::<Seq<u8>, StoreError>(StoreError::NotFound) by {
                        lemma_blank(m1, g, x);
                    }
                    lemma_blank_last_used(m1, g, g.n as nat);
                }
            }
        }
        store
    }
}

// ============================ what healing promises ============================

/// When exactly cluster `c0` holds a copy of `name` that starts a whole chain, those
/// copies are that one header.
proof fn lemma_valid_single(mem: Seq<u8>, g: Geo, name: Seq<u8>, c0: int, k: nat)
    requires
        0 <= c0 < k,
        forall|i: int| 0 <= i < k ==> (#[trigger] is_copy(mem, g, i, name) && valid_at(mem, g, i) <==> i == c0),
    ensures
        valid_upto(mem, g, name, k) == seq![found_at(mem, g, c0)],
    decreases k,
{
    if k - 1 == c0 {
        lemma_valid_none(mem, g, name, (k - 1) as nat);
        assert(is_copy(mem, g, k - 1, name));
        assert(valid_upto(mem, g, name, k) =~= seq![found_at(mem, g, c0)]);
    } else {
        assert(!(is_copy(mem, g, k - 1, name) && valid_at(mem, g, k - 1)));
        lemma_valid_single(mem, g, name, c0, (k - 1) as nat);
    }
}

/// When no cluster holds a copy of `name` that starts a whole chain, there is none.
pub(crate) proof fn lemma_valid_none(mem: Seq<u8>, g: Geo, name: Seq<u8>, k: nat)
    requires
        forall|i: int| 0 <= i < k ==> !(#[trigger] is_copy(mem, g, i, name) && valid_at(mem, g, i)),
    ensures
        valid_upto(mem, g, name, k) == Seq::<FoundFile>::empty(),
    decreases k,
{
    if k > 0 {
        assert(!(is_copy(mem, g, k - 1, name) && valid_at(mem, g, k - 1)));
        lemma_valid_none(mem, g, name, (k - 1) as nat);
    }
}

/// The winner of a name is a copy of it that starts a whole chain.
pub(crate) proof fn lemma_winner(mem: Seq<u8>, g: Geo, name: Seq<u8>)
    ensures
        winner(mem, g, name) matches Some(w) ==> {
            &&& w.first_cluster < g.n
            &&& valid_at(mem, g, w.first_cluster as int)
            &&& is_copy(mem, g, w.first_cluster as int, name)
            &&& w == found_at(mem, g, w.first_cluster as int)
        },
{
    let vs = valid_upto(mem, g, name, g.n as nat);
    lemma_newest_in(vs);
    lemma_valid_members(mem, g, name, g.n as nat);
    if let Some(w) = winner(mem, g, name) {
        let j = choose|j: int| 0 <= j < vs.len() && vs[j] == w;
        assert(vs[j] == w);
    }
}

/// A header cluster that healing keeps is the header of the winner of its name.
proof fn lemma_kept_header(mem: Seq<u8>, g: Geo, c: int)
    requires
        0 <= c < g.n,
        header_at(mem, g, c) is Some,
        heal_kept(mem, g, c as u32),
    ensures
        valid_at(mem, g, c),
        winner(mem, g, name_at(mem, g, c)) == Some(found_at(mem, g, c)),
{
    let i = choose|i: int|
        0 <= i < g.n && valid_at(mem, g, i) && winner(mem, g, name_at(mem, g, i)) == Some(found_at(mem, g, i))
            && #[trigger] file_chain(mem, g, i).contains(c as u32);
    lemma_chain_member(mem, g, i, c as u32);
    lemma_header_magic(mem, g, c);
}

/// The clusters of the chain of a winner are kept.
proof fn lemma_winner_chain_kept(mem: Seq<u8>, g: Geo, name: Seq<u8>, k: int)
    requires
        winner(mem, g, name) is Some,
        0 <= k < need_of(winner(mem, g, name).unwrap().header),
    ensures
        heal_kept(mem, g, file_chain(mem, g, winner(mem, g, name).unwrap().first_cluster as int)[k]),
        file_chain(mem, g, winner(mem, g, name).unwrap().first_cluster as int)[k] < g.n,
{
    lemma_winner(mem, g, name);
    let w = winner(mem, g, name).unwrap();
    let i = w.first_cluster as int;
    let ch = file_chain(mem, g, i);
    lemma_chain_in_range(mem, g, i as u32, need_of(w.header));
    assert(ch.contains(ch[k]));
    assert(name_at(mem, g, i) == name);
}

/// After healing, each name has at most one copy, the newest of those that started
/// whole chains, and it reads as that copy did; every continuation cluster left
/// belongs to the chain of such a copy.
pub proof fn lemma_heal_outcome(mem: Seq<u8>, m2: Seq<u8>, g: Geo)
    requires
        g.base + g.n * 4096 <= mem.len(),
        m2.len() == mem.len(),
        forall|c: int| 0 <= c < g.n ==> #[trigger] cl(m2, g, c) == healed(mem, g, c),
    ensures
        forall|x: Seq<u8>| #[trigger] copies(m2, g, x) == (match winner(mem, g, x) {
            Some(w) => seq![w],
            None => Seq::<FoundFile>::empty(),
        }),
        forall|x: Seq<u8>| #[trigger] read_result(m2, g, x) == reopened_read(mem, g, x),
        forall|c: int| 0 <= c < g.n && #[trigger] word0(m2, g, c) == CONT_B ==> heal_kept(mem, g, c as u32),
{
    assert forall|x: Seq<u8>| #[trigger] copies(m2, g, x) == (match winner(mem, g, x) {
        Some(w) => seq![w],
        None => Seq::<FoundFile>::empty(),
    }) by {
        lemma_heal_copies(mem, m2, g, x);
    }
    assert forall|x: Seq<u8>| #[trigger] read_result(m2, g, x) == (match winner(mem, g, x) {
        Some(w) => file_read(mem, g, w),
        None => Err(StoreError::NotFound),
    }) by {
        lemma_heal_read(mem, m2, g, x);
    }
    assert forall|c: int| 0 <= c < g.n && #[trigger] word0(m2, g, c) == CONT_B implies heal_kept(mem, g, c as u32) by {
        if !heal_kept(mem, g, c as u32) {
            if word0(mem, g, c) == MAGIC || word0(mem, g, c) == CONT_B {
                assert(cl(m2, g, c) == crate::format::ff(4096));
                lemma_ff_cluster(m2, g, c);
            } else {
                assert(cl(m2, g, c) == cl(mem, g, c));
            }
        }
    }
}

/// After healing, every header starts a whole chain of distinct clusters, each name has
/// at most one header, and every header or continuation cluster left belongs to the
/// chain of a copy that healing keeps.
pub proof fn lemma_heal_valid(mem: Seq<u8>, m2: Seq<u8>, g: Geo)
    requires
        g.base + g.n * 4096 <= mem.len(),
        m2.len() == mem.len(),
        forall|c: int| 0 <= c < g.n ==> #[trigger] cl(m2, g, c) == healed(mem, g, c),
    ensures
        forall|i: int| 0 <= i < g.n && #[trigger] header_at(m2, g, i) is Some ==> valid_at(m2, g, i),
        forall|x: Seq<u8>| #[trigger] copies(m2, g, x).len() <= 1,
        forall|c: int| 0 <= c < g.n && (#[trigger] word0(m2, g, c) == MAGIC || word0(m2, g, c) == CONT_B) ==> heal_kept(mem, g, c as u32),
{
    lemma_heal_outcome(mem, m2, g);
    assert forall|x: Seq<u8>| #[trigger] copies(m2, g, x).len() <= 1 by {
        assert(copies(m2, g, x) == (match winner(mem, g, x) {
            Some(w) => seq![w],
            None => Seq::<FoundFile>::empty(),
        }));
    }
    assert forall|c: int| 0 <= c < g.n && (#[trigger] word0(m2, g, c) == MAGIC || word0(m2, g, c) == CONT_B) implies heal_kept(mem, g, c as u32) by {
        if !heal_kept(mem, g, c as u32) && (word0(mem, g, c) == MAGIC || word0(mem, g, c) == CONT_B) {
            lemma_ff_cluster(m2, g, c);
        }
    }
    assert forall|i: int| 0 <= i < g.n && #[trigger] header_at(m2, g, i) is Some implies valid_at(m2, g, i) by {
        lemma_header_magic(m2, g, i);
        assert(heal_kept(mem, g, i as u32));
        if cl(m2, g, i) != cl(mem, g, i) {
            lemma_ff_cluster(m2, g, i);
        }
        assert(header_at(mem, g, i) is Some);
        lemma_kept_header(mem, g, i);
        let x = name_at(mem, g, i);
        let w = found_at(mem, g, i);
        let q = need_of(w.header);
        lemma_chain_in_range(mem, g, i as u32, q);
        assert forall|j: int| 0 <= j < q implies cl(m2, g, #[trigger] chain(mem, g, w.first_cluster, q).unwrap()[j] as int)
            == cl(mem, g, chain(mem, g, w.first_cluster, q).unwrap()[j] as int) by {
            lemma_winner_chain_kept(mem, g, x, j);
            let c = file_chain(mem, g, i)[j];
            assert(c == chain(mem, g, w.first_cluster, q).unwrap()[j]);
        }
        lemma_file_frame(mem, m2, g, w);
        assert(found_at(m2, g, i) == w);
    }
}

/// How one name reads after healing.
proof fn lemma_heal_read(mem: Seq<u8>, m2: Seq<u8>, g: Geo, x: Seq<u8>)
    requires
        g.base + g.n * 4096 <= mem.len(),
        m2.len() == mem.len(),
        forall|c: int| 0 <= c < g.n ==> #[trigger] cl(m2, g, c) == healed(mem, g, c),
    ensures
        read_result(m2, g, x) == (match winner(mem, g, x) {
            Some(w) => file_read(mem, g, w),
            None => Err(StoreError::NotFound),
        }),
{
    lemma_heal_copies(mem, m2, g, x);
    if let Some(w) = winner(mem, g, x) {
        let one = seq![w];
        assert(one.drop_last() =~= Seq::<FoundFile>::empty());
        assert(newest_of(Seq::<FoundFile>::empty()) is None);
        assert(newest_of(one) == Some(w));
        lemma_winner(mem, g, x);
        let q = need_of(w.header);
        let ch = file_chain(mem, g, w.first_cluster as int);
        assert forall|j: int| 0 <= j < q implies #[trigger] cl(m2, g, chain(mem, g, w.first_cluster, q).unwrap()[j] as int)
            == cl(mem, g, chain(mem, g, w.first_cluster, q).unwrap()[j] as int) by {
            lemma_winner_chain_kept(mem, g, x, j);
        }
        lemma_file_frame(mem, m2, g, w);
    }
}

/// The copies of one name after healing.
proof fn lemma_heal_copies(mem: Seq<u8>, m2: Seq<u8>, g: Geo, x: Seq<u8>)
    requires
        g.base + g.n * 4096 <= mem.len(),
        m2.len() == mem.len(),
        forall|c: int| 0 <= c < g.n ==> #[trigger] cl(m2, g, c) == healed(mem, g, c),
    ensures
        copies(m2, g, x) == (match winner(mem, g, x) {
            Some(w) => seq![w],
            None => Seq::<FoundFile>::empty(),
        }),
{
    lemma_winner(mem, g, x);
    assert forall|c: int| 0 <= c < g.n && header_at(m2, g, c) is Some implies cl(m2, g, c) == cl(mem, g, c)
        && #[trigger] header_at(mem, g, c) is Some && heal_kept(mem, g, c as u32) by {
        if cl(m2, g, c) != cl(mem, g, c) {
            lemma_ff_cluster(m2, g, c);
        }
        lemma_header_magic(m2, g, c);
    }
    match winner(mem, g, x) {
        Some(w) => {
            let c0 = w.first_cluster as int;
            assert(w.header == header_at(mem, g, c0).unwrap());
            assert(heal_kept(mem, g, c0 as u32)) by {
                lemma_chain_in_range(mem, g, c0 as u32, need_of(w.header));
                assert(file_chain(mem, g, c0)[0] == c0 as u32);
                assert(file_chain(mem, g, c0).contains(c0 as u32));
                assert(name_at(mem, g, c0) == x);
            }
            assert(cl(m2, g, c0) == cl(mem, g, c0)) by {
                lemma_header_magic(mem, g, c0);
            }
            assert forall|i: int| 0 <= i < g.n implies (#[trigger] is_copy(m2, g, i, x) <==> i == c0) by {
                if is_copy(m2, g, i, x) {
                    assert(header_at(mem, g, i) is Some);
                    lemma_kept_header(mem, g, i);
                    assert(name_at(mem, g, i) == x);
                    assert(found_at(mem, g, i).first_cluster == i as u32);
                }
            }
            lemma_copies_single(m2, g, x, c0, g.n as nat);
            assert(found_at(m2, g, c0) == w);
        },
        None => {
            assert forall|i: int| 0 <= i < g.n implies !#[trigger] is_copy(m2, g, i, x) by {
                if is_copy(m2, g, i, x) {
                    assert(header_at(mem, g, i) is Some);
                    lemma_kept_header(mem, g, i);
                    assert(name_at(mem, g, i) == x);
                }
            }
            lemma_copies_none(m2, g, x, g.n as nat);
        },
    }
}

/// On a well-formed partition every header is the winner of its name.
pub(crate) proof fn lemma_wf_winner(mem: Seq<u8>, g: Geo, i: int)
    requires
        wf(mem, g),
        0 <= i < g.n,
        header_at(mem, g, i) is Some,
    ensures
        valid_at(mem, g, i),
        winner(mem, g, name_at(mem, g, i)) == Some(found_at(mem, g, i)),
{
    reveal(wf);
    let x = name_at(mem, g, i);
    assert forall|j: int| 0 <= j < g.n implies (#[trigger] is_copy(mem, g, j, x) && valid_at(mem, g, j) <==> j == i) by {
        if j != i && is_copy(mem, g, j, x) {
            assert(name_at(mem, g, i) != name_at(mem, g, j));
        }
    }
    lemma_valid_single(mem, g, x, i, g.n as nat);
    let one = seq![found_at(mem, g, i)];
    assert(one.drop_last() =~= Seq::<FoundFile>::empty());
    assert(newest_of(Seq::<FoundFile>::empty()) is None);
    assert(newest_of(one) == Some(found_at(mem, g, i)));
}

/// Healing a well-formed partition keeps every file: the partition stays well formed
/// and every name has the same copies and reads the same.
pub proof fn lemma_heal_wf(mem: Seq<u8>, m2: Seq<u8>, g: Geo)
    requires
        wf(mem, g),
        g.base + g.n * 4096 <= mem.len(),
        m2.len() == mem.len(),
        forall|c: int| 0 <= c < g.n ==> #[trigger] cl(m2, g, c) == healed(mem, g, c),
    ensures
        wf(m2, g),
        forall|x: Seq<u8>| #[trigger] copies(m2, g, x) == copies(mem, g, x),
        forall|x: Seq<u8>| #[trigger] read_result(m2, g, x) == read_result(mem, g, x),
{
    assert forall|i: int, k: int|
        0 <= i < g.n && header_at(mem, g, i) is Some && 0 <= k < need_of(header_at(mem, g, i).unwrap()) implies
        #[trigger] cl(m2, g, file_chain(mem, g, i)[k] as int) == cl(mem, g, file_chain(mem, g, i)[k] as int) by {
        lemma_wf_winner(mem, g, i);
        lemma_winner_chain_kept(mem, g, name_at(mem, g, i), k);
    }
    assert forall|c: int| 0 <= c < g.n implies #[trigger] header_at(m2, g, c) == header_at(mem, g, c)
        && (header_at(mem, g, c) is Some ==> cl(m2, g, c) == cl(mem, g, c)) by {
        if header_at(mem, g, c) is Some {
            lemma_wf_winner(mem, g, c);
            lemma_chain_in_range(mem, g, c as u32, need_of(header_at(mem, g, c).unwrap()));
            assert(file_chain(mem, g, c)[0] == c as u32);
            assert(cl(m2, g, file_chain(mem, g, c)[0] as int) == cl(mem, g, file_chain(mem, g, c)[0] as int));
        } else if cl(m2, g, c) != cl(mem, g, c) {
            lemma_ff_cluster(m2, g, c);
        }
    }
    assert forall|i: int| 0 <= i < g.n && header_at(mem, g, i) is Some implies {
        &&& #[trigger] chain(m2, g, i as u32, need_of(header_at(mem, g, i).unwrap())) == chain(mem, g, i as u32, need_of(header_at(mem, g, i).unwrap()))
        &&& chain_good(m2, g, found_at(mem, g, i)) == chain_good(mem, g, found_at(mem, g, i))
        &&& file_read(m2, g, found_at(mem, g, i)) == file_read(mem, g, found_at(mem, g, i))
    } by {
        reveal(wf);
        let f = found_at(mem, g, i);
        assert(f.first_cluster == i as u32);
        lemma_file_frame(mem, m2, g, f);
    }
    assert forall|x: Seq<u8>| #[trigger] copies(m2, g, x) == copies(mem, g, x) by {
        assert forall|i: int| 0 <= i < g.n implies #[trigger] is_copy(mem, g, i, x) == is_copy(m2, g, i, x) by {
            assert(header_at(m2, g, i) == header_at(mem, g, i));
        }
        assert forall|i: int| 0 <= i < g.n && is_copy(mem, g, i, x) implies #[trigger] header_at(mem, g, i) == header_at(m2, g, i) by {
            assert(header_at(m2, g, i) == header_at(mem, g, i));
        }
        lemma_copies_frame(mem, m2, g, x, g.n as nat);
    }
    assert forall|x: Seq<u8>| #[trigger] read_result(m2, g, x) == read_result(mem, g, x) by {
        assert(copies(m2, g, x) == copies(mem, g, x));
        let fs = copies(mem, g, x);
        lemma_newest_in(fs);
        lemma_copies_members(mem, g, x, g.n as nat);
        if let Some(f) = newest_of(fs) {
            let j = choose|j: int| 0 <= j < fs.len() && fs[j] == f;
            assert(fs[j] == f);
            let i = f.first_cluster as int;
            assert(header_at(mem, g, i) is Some);
            assert(f == found_at(mem, g, i));
        }
    }
    assert(wf(m2, g)) by {
        reveal(wf);
        assert forall|i: int| 0 <= i < g.n && #[trigger] header_at(m2, g, i) is Some implies {
            &&& chain_good(m2, g, found_at(m2, g, i))
            &&& file_chain(m2, g, i).no_duplicates()
        } by {
            assert(header_at(m2, g, i) == header_at(mem, g, i));
            assert(found_at(m2, g, i) == found_at(mem, g, i));
        }
        assert forall|i: int, j: int|
            0 <= i < g.n && 0 <= j < g.n && i != j && #[trigger] header_at(m2, g, i) is Some && #[trigger] header_at(m2, g, j) is Some implies {
            &&& name_at(m2, g, i) != name_at(m2, g, j)
            &&& file_chain(m2, g, i).disjoint(file_chain(m2, g, j))
        } by {
            assert(header_at(m2, g, i) == header_at(mem, g, i));
            assert(header_at(m2, g, j) == header_at(mem, g, j));
        }
    }
}

// ============================ further promises ============================

/// The space in use and the space left add up to the capacity.
pub proof fn lemma_space_adds_up(mem: Seq<u8>, g: Geo, v1: Seq<bool>)
    ensures
        used_upto(mem, g, v1, g.n as nat) * 4096 + (g.n - used_upto(mem, g, v1, g.n as nat)) * 4096 == g.n * 4096,
        used_upto(mem, g, v1, g.n as nat) <= g.n,
{
    lemma_used_upto_bound(mem, g, v1, g.n as nat);
    let u = used_upto(mem, g, v1, g.n as nat) as int;
    let n = g.n as int;
    assert(u * 4096 + (n - u) * 4096 == n * 4096) by (nonlinear_arith);
}

/// A directory path names the same directory with or without a trailing `'/'`.
pub proof fn lemma_dir_prefix_slash(path: Seq<u8>)
    requires
        !(path.len() > 0 && path.last() == slash()),
    ensures
        dir_prefix(path) == dir_prefix(path.push(slash())),
        dir_prefix(path) == path.push(slash()),
{
}

/// A generation one past another is newer than it, and no two generations are each
/// newer than the other.
pub proof fn lemma_gen_newer(a: u32, b: u32)
    ensures
        spec_gen_newer(((a + 1) % 0x1_0000_0000) as u32, a),
        !(spec_gen_newer(a, b) && spec_gen_newer(b, a)),
        !spec_gen_newer(a, a),
{
}

/// The data gathered over fewer clusters is a prefix of the data gathered over more.
proof fn lemma_data_upto_grows(mem: Seq<u8>, g: Geo, h: ParsedHeader, cs: Seq<u32>, m: nat, k: nat)
    requires
        m <= k,
    ensures
        data_upto(mem, g, h, cs, m).len() <= data_upto(mem, g, h, cs, k).len(),
        data_upto(mem, g, h, cs, m) == data_upto(mem, g, h, cs, k).take(data_upto(mem, g, h, cs, m).len() as int),
    decreases k,
{
    if m < k {
        lemma_data_upto_grows(mem, g, h, cs, m, (k - 1) as nat);
        let a = data_upto(mem, g, h, cs, (k - 1) as nat);
        let b = data_upto(mem, g, h, cs, k);
        assert(b == a + slice_of(mem, g, h, cs[k - 1], (k - 1) as nat));
        assert(b.take(a.len() as int) =~= a);
        let dm = data_upto(mem, g, h, cs, m);
        assert(b.take(dm.len() as int) =~= a.take(dm.len() as int));
    } else {
        let dm = data_upto(mem, g, h, cs, m);
        assert(dm.take(dm.len() as int) =~= dm);
    }
}

/// Reading a name gives `NotFound` exactly when the partition holds no header of that
/// name; any other failure is `Corrupted`.
pub proof fn lemma_not_found_iff(mem: Seq<u8>, g: Geo, x: Seq<u8>)
    ensures
        (read_result(mem, g, x) == Err::<Seq<u8>, StoreError>(StoreError::NotFound)) == (copies(mem, g, x).len() == 0),
        read_result(mem, g, x) is Ok || read_result(mem, g, x) == Err::<Seq<u8>, StoreError>(StoreError::NotFound)
            || read_result(mem, g, x) == Err::<Seq<u8>, StoreError>(StoreError::Corrupted),
{
    let s = copies(mem, g, x);
    if s.len() > 0 {
        assert(newest_of(s) is Some);
    }
}

/// Reading a window of a file that reads whole as `d` gives the bytes of `d` from
/// `offset` on, as many as fit in the buffer and remain in the file, and leaves the rest
/// of the buffer as it was.
pub proof fn lemma_range_of_read(mem: Seq<u8>, g: Geo, x: Seq<u8>, d: Seq<u8>, offset: nat, before: Seq<u8>, r: Result<usize, StoreError>, after: Seq<u8>)
    requires
        g.base + g.n * 4096 <= mem.len(),
        read_result(mem, g, x) == Ok::<Seq<u8>, StoreError>(d),
        range_outcome(mem, g, x, offset, before, r, after),
    ensures
        ({
            let n = if offset >= d.len() { 0 } else if before.len() < d.len() - offset { before.len() } else { (d.len() - offset) as nat };
            &&& r == Ok::<usize, StoreError>(n as usize)
            &&& n == 0 ==> after == before
            &&& n > 0 ==> after == before.update_subrange_with(0, d.subrange(offset as int, (offset + n) as int))
        }),
{
    let f = newest_of(copies(mem, g, x)).unwrap();
    lemma_newest_in(copies(mem, g, x));
    lemma_copies_members(mem, g, x, g.n as nat);
    let j = choose|j: int| 0 <= j < copies(mem, g, x).len() && copies(mem, g, x)[j] == f;
    assert(copies(mem, g, x)[j] == f);
    assert(f.first_cluster < g.n);
    assert(header_at(mem, g, f.first_cluster as int) == Some(f.header));
    assert(f.header.name_len <= MAX_NAME_LEN);
    let q = need_of(f.header);
    assert(chain_good(mem, g, f));
    lemma_chain_in_range(mem, g, f.first_cluster, q);
    lemma_data_upto_len(mem, g, f.header, chain(mem, g, f.first_cluster, q).unwrap(), q);
    lemma_spans(f.header.name_len as nat, f.header.data_len as nat, (q - 1) as nat);
    assert(d.len() == f.header.data_len);
    if offset >= d.len() || before.len() == 0 {
    } else {
        let want = window_len(f, offset, before.len());
        lemma_range_of_whole(mem, g, f, offset, want);
    }
}

/// On a file whose chain is whole, reading a window gives the bytes of the window of
/// its data, the data that reading the whole file gathers.
pub proof fn lemma_range_of_whole(mem: Seq<u8>, g: Geo, f: FoundFile, offset: nat, want: nat)
    requires
        g.base + g.n * 4096 <= mem.len(),
        f.first_cluster < g.n,
        f.header.name_len <= MAX_NAME_LEN,
        chain_good(mem, g, f),
        want >= 1,
        offset + want <= f.header.data_len,
    ensures
        window_ok(mem, g, f, offset, want),
        window_data(mem, g, f, offset, want) == file_data(mem, g, f).subrange(offset as int, (offset + want) as int),
{
    let l = f.header.name_len as nat;
    let d = f.header.data_len as nat;
    let q = need_of(f.header);
    let e = cluster_of(l, offset + want - 1);
    lemma_cluster_of(l, d, offset + want - 1);
    let cq = chain(mem, g, f.first_cluster, q).unwrap();
    lemma_chain_prefix(mem, g, f.first_cluster, q, e + 1);
    lemma_chain_in_range(mem, g, f.first_cluster, q);
    let ce = chain(mem, g, f.first_cluster, e + 1).unwrap();
    assert forall|j: int| 1 <= j <= e && span_end(l, d, j as nat) > offset implies word0(mem, g, #[trigger] ce[j] as int) == CONT_B by {
        assert(ce[j] == cq[j]);
    }
    assert(cq.take((e + 1) as int) == ce);
    assert(ce.take((e + 1) as int) =~= ce);
    lemma_data_upto_prefix(mem, g, f.header, ce, cq, e + 1);
    lemma_data_upto_grows(mem, g, f.header, cq, e + 1, q);
    lemma_data_upto_len(mem, g, f.header, cq, e + 1);
    let small = data_upto(mem, g, f.header, cq, e + 1);
    let whole = data_upto(mem, g, f.header, cq, q);
    assert(small.len() == span_end(l, d, e));
    assert(small.subrange(offset as int, (offset + want) as int) =~= whole.subrange(offset as int, (offset + want) as int));
}

impl<F: Flash> Store<F> {
    /// Which clusters are taken, one flag per cluster.
    pub fn cluster_usage(&mut self) -> (r: Vec<bool>)
        requires
            old(self).inv(),
        ensures
            final(self).same(old(self)),
            r@.len() == old(self).geo().n,
            old(self).healthy() ==> forall|c: int|
                0 <= c < old(self).geo().n ==> #[trigger] r@[c] == used_at(old(self).mem(), old(self).geo(), old(self).v1_map(), c),
    {
        let n = self.cluster_max_quantity;
        let mut map: Vec<bool> = Vec::new();
        let mut i: u32 = 0;
        while i < n
            invariant
                self.same(old(self)),
                old(self).inv(),
                n == old(self).geo().n,
                i <= n,
                map@.len() == i,
                old(self).healthy() ==> forall|c: int| 0 <= c < i ==> #[trigger] map@[c] == used_at(old(self).mem(), old(self).geo(), old(self).v1_map(), c),
            decreases n - i,
        {
            proof {
                self.lemma_healthy_frame(old(self));
            }
            let u = self.check_used(i);
            map.push(u);
            i = i + 1;
        }
        map
    }

    /// Which clusters hold the file `file_name`: those of the chains of all its copies,
    /// one flag per cluster.
    pub fn file_clusters(&mut self, file_name: &str) -> (r: Vec<bool>)
        requires
            old(self).inv(),
        ensures
            final(self).same(old(self)),
            r@.len() == old(self).geo().n,
            old(self).healthy() && wf(old(self).mem(), old(self).geo()) ==> {
                let fs = copies(old(self).mem(), old(self).geo(), file_name.spec_bytes());
                forall|c: int| 0 <= c < old(self).geo().n ==> #[trigger] r@[c] == in_chains(old(self).mem(), old(self).geo(), fs, fs.len() as int, c as u32)
            },
    {
        let ghost mem = self.mem();
        let ghost g = self.geo();
        let ghost good = self.healthy() && wf(mem, g);
        let n = self.cluster_max_quantity;
        let mut map: Vec<bool> = vec![false; n as usize];
        let found = self.find_files(file_name.as_bytes());
        proof {
            if good {
                lemma_copies_members(mem, g, file_name.spec_bytes(), g.n as nat);
            }
        }
        let mut k: usize = 0;
        while k < found.len()
            invariant
                self.same(old(self)),
                old(self).inv(),
                mem == self.mem(),
                g == self.geo(),
                n == g.n,
                map@.len() == n,
                k <= found@.len(),
                good == (old(self).healthy() && wf(mem, g)),
                forall|j: int| 0 <= j < found@.len() ==> sane(g, #[trigger] found@[j]),
                good ==> forall|j: int| 0 <= j < found@.len() ==> found_ok(mem, g, file_name.spec_bytes(), #[trigger] found@[j]),
                good ==> found@ == copies(mem, g, file_name.spec_bytes()),
                good ==> forall|c: int| 0 <= c < n ==> #[trigger] map@[c] == in_chains(mem, g, found@, k as int, c as u32),
            decreases found@.len() - k,
        {
            proof {
                self.lemma_healthy_frame(old(self));
            }
            let first = found[k].first_cluster;
            let chain = self.collect_chain(first);
            proof {
                if good {
                    reveal(wf);
                    assert(found_ok(mem, g, file_name.spec_bytes(), found@[k as int]));
                    assert(chain@ == file_chain(mem, g, first as int));
                }
            }
            let mut t: usize = 0;
            while t < chain.len()
                invariant
                    map@.len() == n,
                    n == g.n,
                    t <= chain@.len(),
                    k < found@.len(),
                    good_clusters(g, chain@),
                    good ==> chain@ == file_chain(mem, g, found@[k as int].first_cluster as int),
                    good ==> forall|c: int| 0 <= c < n ==> #[trigger] map@[c] == (in_chains(mem, g, found@, k as int, c as u32)
                        || chain@.take(t as int).contains(c as u32)),
                decreases chain@.len() - t,
            {
                let c = chain[t];
                let ghost before = map@;
                map.set(c as usize, true);
                proof {
                    if good {
                        let t1 = chain@.take(t + 1);
                        let t0 = chain@.take(t as int);
                        assert(t1 =~= t0.push(c));
                        assert forall|x: int| 0 <= x < n implies #[trigger] map@[x] == (in_chains(mem, g, found@, k as int, x as u32)
                            || t1.contains(x as u32)) by {
                            if x != c as int {
                                assert(map@[x] == before[x]);
                                if t1.contains(x as u32) {
                                    let v = choose|v: int| 0 <= v < t + 1 && t1[v] == x as u32;
                                    assert(t0[v] == x as u32);
                                }
                                if t0.contains(x as u32) {
                                    let v = choose|v: int| 0 <= v < t && t0[v] == x as u32;
                                    assert(t1[v] == x as u32);
                                }
                            } else {
                                assert(t1[t as int] == c);
                            }
                        }
                    }
                }
                t = t + 1;
            }
            proof {
                if good {
                    assert(chain@.take(chain@.len() as int) =~= chain@);
                    assert forall|x: int| 0 <= x < n implies #[trigger] map@[x] == in_chains(mem, g, found@, k + 1, x as u32) by {
                        if chain@.contains(x as u32) {
                            assert(file_chain(mem, g, found@[k as int].first_cluster as int).contains(x as u32));
                        }
                        if in_chains(mem, g, found@, k + 1, x as u32) {
                            let u = choose|u: int| 0 <= u < k + 1 && #[trigger] file_chain(mem, g, found@[u].first_cluster as int).contains(x as u32);
                            if u < k {
                                assert(in_chains(mem, g, found@, k as int, x as u32));
                            }
                        }
                    }
                }
            }
            k = k + 1;
        }
        map
    }
}

// ============================ when space runs out ============================

/// Cluster `c` is free and not yet handed out.
pub open spec fn avail(mem: Seq<u8>, g: Geo, v1: Seq<bool>, taken: Seq<u32>, c: int) -> bool {
    free_at(mem, g, v1, c) && !taken.contains(c as u32)
}

/// The number of clusters among the first `k` that are free and not in `taken`.
pub open spec fn free_left(mem: Seq<u8>, g: Geo, v1: Seq<bool>, taken: Seq<u32>, k: nat) -> nat
    decreases k,
{
    if k == 0 {
        0
    } else {
        free_left(mem, g, v1, taken, (k - 1) as nat) + if avail(mem, g, v1, taken, k - 1) {
            1nat
        } else {
            0nat
        }
    }
}

/// Looking at `left` clusters from `pos` on finds nothing exactly when none of them is
/// free and not handed out; what it finds is such a cluster.
proof fn lemma_scan_free(mem: Seq<u8>, g: Geo, v1: Seq<bool>, taken: Seq<u32>, pos: nat, left: nat)
    requires
        g.n > 0,
        pos < g.n,
        left <= g.n,
    ensures
        scan_free(mem, g, v1, taken, pos, left) is None <==> forall|t: int|
            0 <= t < left ==> !#[trigger] avail(mem, g, v1, taken, (pos + t) % (g.n as int)),
        scan_free(mem, g, v1, taken, pos, left) matches Some(c) ==> c < g.n && avail(mem, g, v1, taken, c as int),
    decreases left,
{
    let n = g.n as int;
    if left > 0 {
        vstd::arithmetic::div_mod::lemma_small_mod(pos, n as nat);
        if avail(mem, g, v1, taken, pos as int) {
            assert(avail(mem, g, v1, taken, (pos as int + 0) % n));
        } else {
            let p2 = ((pos + 1) % (g.n as nat)) as nat;
            lemma_scan_free(mem, g, v1, taken, p2, (left - 1) as nat);
            assert forall|t: int| 0 <= t < left - 1 implies #[trigger] ((p2 + t) % n) == (pos + 1 + t) % n by {
                vstd::arithmetic::div_mod::lemma_add_mod_noop(pos as int + 1, t, n);
                vstd::arithmetic::div_mod::lemma_small_mod(t as nat, n as nat);
            }
            if forall|t: int| 0 <= t < left - 1 ==> !#[trigger] avail(mem, g, v1, taken, (p2 + t) % n) {
                assert forall|t: int| 0 <= t < left implies !#[trigger] avail(mem, g, v1, taken, (pos + t) % n) by {
                    if t > 0 {
                        assert((p2 + (t - 1)) % n == (pos + t) % n);
                        assert(!avail(mem, g, v1, taken, (p2 + (t - 1)) % n));
                    }
                }
            } else {
                let t = choose|t: int| 0 <= t < left - 1 && #[trigger] avail(mem, g, v1, taken, (p2 + t) % n);
                assert((p2 + t) % n == (pos + (t + 1)) % n);
                assert(avail(mem, g, v1, taken, (pos + (t + 1)) % n));
            }
        }
    }
}

/// A full round from any position finds nothing exactly when no cluster is free and
/// not handed out.
proof fn lemma_scan_round(mem: Seq<u8>, g: Geo, v1: Seq<bool>, taken: Seq<u32>, pos: nat)
    requires
        g.n > 0,
        pos < g.n,
    ensures
        scan_free(mem, g, v1, taken, pos, g.n as nat) is None <==> forall|c: int| 0 <= c < g.n ==> !#[trigger] avail(mem, g, v1, taken, c),
{
    let n = g.n as int;
    lemma_scan_free(mem, g, v1, taken, pos, g.n as nat);
    if scan_free(mem, g, v1, taken, pos, g.n as nat) is None {
        assert forall|c: int| 0 <= c < g.n implies !#[trigger] avail(mem, g, v1, taken, c) by {
            let t = (c + n - pos) % n;
            vstd::arithmetic::div_mod::lemma_add_mod_noop(pos as int, c + n - pos, n);
            vstd::arithmetic::div_mod::lemma_small_mod(pos, n as nat);
            vstd::arithmetic::div_mod::lemma_mod_add_multiples_vanish(c, n);
            vstd::arithmetic::div_mod::lemma_small_mod(c as nat, n as nat);
            assert((pos + t) % n == c);
            assert(!avail(mem, g, v1, taken, (pos + t) % n));
        }
    } else {
        let c = scan_free(mem, g, v1, taken, pos, g.n as nat).unwrap();
        assert(avail(mem, g, v1, taken, c as int));
    }
}

/// The count of free clusters not handed out is zero exactly when there is none.
proof fn lemma_free_left_zero(mem: Seq<u8>, g: Geo, v1: Seq<bool>, taken: Seq<u32>, k: nat)
    ensures
        free_left(mem, g, v1, taken, k) == 0 <==> forall|c: int| 0 <= c < k ==> !#[trigger] avail(mem, g, v1, taken, c),
    decreases k,
{
    if k > 0 {
        lemma_free_left_zero(mem, g, v1, taken, (k - 1) as nat);
    }
}

/// Handing out a free cluster lowers the count by one.
proof fn lemma_free_left_push(mem: Seq<u8>, g: Geo, v1: Seq<bool>, taken: Seq<u32>, c: u32, k: nat)
    requires
        avail(mem, g, v1, taken, c as int),
        k <= g.n,
    ensures
        free_left(mem, g, v1, taken.push(c), k) + (if c < k {
            1nat
        } else {
            0nat
        }) == free_left(mem, g, v1, taken, k),
    decreases k,
{
    if k > 0 {
        lemma_free_left_push(mem, g, v1, taken, c, (k - 1) as nat);
        let x = k - 1;
        assert(taken.push(c).contains(x as u32) <==> taken.contains(x as u32) || x as u32 == c) by {
            if taken.push(c).contains(x as u32) {
                let j = choose|j: int| 0 <= j < taken.push(c).len() && taken.push(c)[j] == x as u32;
                if j < taken.len() {
                    assert(taken[j] == x as u32);
                }
            }
            if taken.contains(x as u32) {
                let j = choose|j: int| 0 <= j < taken.len() && taken[j] == x as u32;
                assert(taken.push(c)[j] == x as u32);
            }
            assert(taken.push(c)[taken.len() as int] == c);
        }
    }
}

/// With nothing handed out, the free clusters are those not taken.
proof fn lemma_free_left_all(mem: Seq<u8>, g: Geo, v1: Seq<bool>, k: nat)
    ensures
        free_left(mem, g, v1, Seq::empty(), k) + used_upto(mem, g, v1, k) == k,
    decreases k,
{
    if k > 0 {
        lemma_free_left_all(mem, g, v1, (k - 1) as nat);
    }
}

/// The allocator finds `k` more clusters exactly when at least `k` are free and not
/// handed out yet.
proof fn lemma_alloc_none(mem: Seq<u8>, g: Geo, v1: Seq<bool>, cursor: u32, taken: Seq<u32>, k: nat)
    requires
        g.n > 0,
        cursor < g.n,
    ensures
        alloc_from(mem, g, v1, cursor, taken, k) is None <==> free_left(mem, g, v1, taken, g.n as nat) < k,
    decreases k,
{
    if k > 0 {
        let n = g.n as int;
        vstd::arithmetic::div_mod::lemma_small_mod(cursor as nat, n as nat);
        let pos = (cursor % g.n) as nat;
        lemma_scan_round(mem, g, v1, taken, pos);
        lemma_scan_free(mem, g, v1, taken, pos, g.n as nat);
        lemma_free_left_zero(mem, g, v1, taken, g.n as nat);
        match scan_free(mem, g, v1, taken, pos, g.n as nat) {
            None => {},
            Some(c) => {
                let next = ((c + 1) % n) as u32;
                lemma_alloc_none(mem, g, v1, next, taken.push(c), (k - 1) as nat);
                lemma_free_left_push(mem, g, v1, taken, c, g.n as nat);
            },
        }
    }
}

/// A write is refused for lack of space exactly when fewer clusters are free than the
/// file needs (free: neither holding a header or a continuation nor kept for data of
/// the older format).
pub proof fn lemma_no_space(mem: Seq<u8>, g: Geo, v1: Seq<bool>, cursor: u32, k: nat)
    requires
        g.n > 0,
        cursor < g.n,
    ensures
        used_upto(mem, g, v1, g.n as nat) <= g.n,
        alloc_from(mem, g, v1, cursor, Seq::empty(), k) is None <==> g.n - used_upto(mem, g, v1, g.n as nat) < k,
{
    lemma_used_upto_bound(mem, g, v1, g.n as nat);
    lemma_free_left_all(mem, g, v1, g.n as nat);
    lemma_alloc_none(mem, g, v1, cursor, Seq::empty(), k);
}

/// An update changes only clusters it hands out or the clusters of the old copies:
/// a taken cluster that holds neither a header nor a continuation stays as it was, and
/// a changed cluster now holds a header or a continuation, or is erased.
proof fn lemma_update_touches(
    m0: Seq<u8>,
    m2: Seq<u8>,
    g: Geo,
    v1: Seq<bool>,
    name: Seq<u8>,
    data: Seq<u8>,
    generation: u32,
    cs: Seq<u32>,
)
    requires
        wf(m0, g),
        g.base + g.n * 4096 <= 0x1_0000_0000,
        g.base + g.n * 4096 <= m0.len(),
        m2.len() == m0.len(),
        updated(m0, m2, g, name, data, generation, cs),
        new_file_ok(m0, g, v1, name, data, cs),
    ensures
        forall|c: int| 0 <= c < g.n && !free_at(m0, g, v1, c) && word0(m0, g, c) != MAGIC && word0(m0, g, c) != CONT_B
            ==> #[trigger] cl(m2, g, c) == cl(m0, g, c),
        forall|c: int| 0 <= c < g.n && #[trigger] cl(m2, g, c) != cl(m0, g, c) ==> word0(m2, g, c) == MAGIC
            || word0(m2, g, c) == CONT_B || cl(m2, g, c) == crate::format::ff(4096),
{
    reveal(updated);
    let fs = copies(m0, g, name);
    lemma_copies_members(m0, g, name, g.n as nat);
    if cs.len() > 0 {
        lemma_saved_file(m2, g, name, data, generation, cs);
    }
    assert forall|c: int| 0 <= c < g.n && !free_at(m0, g, v1, c) && word0(m0, g, c) != MAGIC && word0(m0, g, c) != CONT_B
        implies #[trigger] cl(m2, g, c) == cl(m0, g, c) by {
        if cs.contains(c as u32) {
            let t = choose|t: int| 0 <= t < cs.len() && cs[t] == c as u32;
            assert(free_at(m0, g, v1, cs[t] as int));
        }
        if in_chains(m0, g, fs, fs.len() as int, c as u32) {
            reveal(wf);
            let j = choose|j: int| 0 <= j < fs.len() && #[trigger] file_chain(m0, g, fs[j].first_cluster as int).contains(c as u32);
            let h = fs[j].first_cluster as int;
            lemma_chain_member(m0, g, h, c as u32);
            if c == h {
                lemma_header_magic(m0, g, h);
            }
        }
    }
    assert forall|c: int| 0 <= c < g.n && #[trigger] cl(m2, g, c) != cl(m0, g, c) implies word0(m2, g, c) == MAGIC
        || word0(m2, g, c) == CONT_B || cl(m2, g, c) == crate::format::ff(4096) by {
        if cs.contains(c as u32) {
            let t = choose|t: int| 0 <= t < cs.len() && cs[t] == c as u32;
            if t == 0 {
                lemma_header_magic(m2, g, c);
            } else {
                assert(word0(m2, g, cs[t] as int) == CONT_B);
            }
        }
    }
}

/// Erasing clusters that hold neither a header nor a continuation keeps every file of a
/// well-formed partition.
pub proof fn lemma_erase_outside_files(m1: Seq<u8>, m2: Seq<u8>, g: Geo)
    requires
        wf(m1, g),
        g.base + g.n * 4096 <= m1.len(),
        m2.len() == m1.len(),
        forall|c: int| 0 <= c < g.n ==> #[trigger] cl(m2, g, c) == cl(m1, g, c) || (cl(m2, g, c) == crate::format::ff(4096)
            && word0(m1, g, c) != MAGIC && word0(m1, g, c) != CONT_B),
    ensures
        wf(m2, g),
        forall|x: Seq<u8>| #[trigger] copies(m2, g, x) == copies(m1, g, x),
        forall|x: Seq<u8>| #[trigger] read_result(m2, g, x) == read_result(m1, g, x),
{
    assert forall|i: int, k: int|
        0 <= i < g.n && header_at(m1, g, i) is Some && 0 <= k < need_of(header_at(m1, g, i).unwrap()) implies
        #[trigger] cl(m2, g, file_chain(m1, g, i)[k] as int) == cl(m1, g, file_chain(m1, g, i)[k] as int) by {
        reveal(wf);
        let ch = file_chain(m1, g, i);
        lemma_chain_in_range(m1, g, i as u32, need_of(header_at(m1, g, i).unwrap()));
        assert(ch.contains(ch[k]));
        lemma_chain_member(m1, g, i, ch[k]);
        if ch[k] as int == i {
            lemma_header_magic(m1, g, i);
        }
    }
    assert forall|c: int| 0 <= c < g.n implies #[trigger] header_at(m2, g, c) == header_at(m1, g, c)
        && (header_at(m1, g, c) is Some ==> cl(m2, g, c) == cl(m1, g, c)) by {
        if header_at(m1, g, c) is Some {
            lemma_header_magic(m1, g, c);
        } else if cl(m2, g, c) != cl(m1, g, c) {
            lemma_ff_cluster(m2, g, c);
        }
    }
    assert forall|i: int| 0 <= i < g.n && header_at(m1, g, i) is Some implies {
        &&& #[trigger] chain(m2, g, i as u32, need_of(header_at(m1, g, i).unwrap())) == chain(m1, g, i as u32, need_of(header_at(m1, g, i).unwrap()))
        &&& chain_good(m2, g, found_at(m1, g, i)) == chain_good(m1, g, found_at(m1, g, i))
        &&& file_read(m2, g, found_at(m1, g, i)) == file_read(m1, g, found_at(m1, g, i))
    } by {
        reveal(wf);
        let f = found_at(m1, g, i);
        assert(f.first_cluster == i as u32);
        lemma_file_frame(m1, m2, g, f);
    }
    assert forall|x: Seq<u8>| #[trigger] copies(m2, g, x) == copies(m1, g, x) by {
        assert forall|i: int| 0 <= i < g.n implies #[trigger] is_copy(m1, g, i, x) == is_copy(m2, g, i, x) by {
            assert(header_at(m2, g, i) == header_at(m1, g, i));
        }
        assert forall|i: int| 0 <= i < g.n && is_copy(m1, g, i, x) implies #[trigger] header_at(m1, g, i) == header_at(m2, g, i) by {
            assert(header_at(m2, g, i) == header_at(m1, g, i));
        }
        lemma_copies_frame(m1, m2, g, x, g.n as nat);
    }
    assert forall|x: Seq<u8>| #[trigger] read_result(m2, g, x) == read_result(m1, g, x) by {
        assert(copies(m2, g, x) == copies(m1, g, x));
        let fs = copies(m1, g, x);
        lemma_newest_in(fs);
        lemma_copies_members(m1, g, x, g.n as nat);
        if let Some(f) = newest_of(fs) {
            let j = choose|j: int| 0 <= j < fs.len() && fs[j] == f;
            assert(fs[j] == f);
            let i = f.first_cluster as int;
            assert(header_at(m1, g, i) is Some);
            assert(f == found_at(m1, g, i));
        }
    }
    assert(wf(m2, g)) by {
        reveal(wf);
        assert forall|i: int| 0 <= i < g.n && #[trigger] header_at(m2, g, i) is Some implies {
            &&& chain_good(m2, g, found_at(m2, g, i))
            &&& file_chain(m2, g, i).no_duplicates()
        } by {
            assert(header_at(m2, g, i) == header_at(m1, g, i));
            assert(found_at(m2, g, i) == found_at(m1, g, i));
        }
        assert forall|i: int, j: int|
            0 <= i < g.n && 0 <= j < g.n && i != j && #[trigger] header_at(m2, g, i) is Some && #[trigger] header_at(m2, g, j) is Some implies {
            &&& name_at(m2, g, i) != name_at(m2, g, j)
            &&& file_chain(m2, g, i).disjoint(file_chain(m2, g, j))
        } by {
            assert(header_at(m2, g, i) == header_at(m1, g, i));
            assert(header_at(m2, g, j) == header_at(m1, g, j));
        }
    }
}

} // verus!
