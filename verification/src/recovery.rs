//! What a store opened after a power loss reads.
//!
//! A write lays the new copy out on free clusters, the header cluster last, and only
//! then erases the old copy. Each state the device passes through, taken one device
//! write at a time, reads on reopening as before the write or as after it.

use vstd::prelude::*;
use crate::format::{ff, spec_gen_newer, CONT_B, MAGIC};
use crate::store::{
    chain, cl, copies, dropping, file_chain, file_image, file_read, found_at, header_at, in_chains, is_copy,
    lemma_chain_in_range, lemma_chain_member, lemma_chain_prefix, lemma_cluster_not_v1, lemma_copies_members,
    lemma_copies_none, lemma_copies_single, lemma_ff_cluster, lemma_file_frame, lemma_gen_newer,
    lemma_header_magic, lemma_newest_in, lemma_saved_cluster, lemma_saved_file, lemma_valid_none,
    lemma_wf_winner, lemma_winner, looks_v1, healed, name_at, need_of, new_file_ok, newest_of, next_generation,
    next_of, no_v1, read_result, saving, valid_at, valid_upto, wf, winner, word0, FoundFile, Geo, StoreError,
};

verus! {

/// What reading `x` gives from a store opened on a partition holding `mem`: opening
/// heals the partition and keeps, for each name, the newest copy that starts a whole
/// chain; reading gives that copy as it reads, or `NotFound` when there is none. The
/// contract of `Store::new` reads this way on a partition that holds nothing of the
/// older format.
pub open spec fn reopened_read(mem: Seq<u8>, g: Geo, x: Seq<u8>) -> Result<Seq<u8>, StoreError> {
    match winner(mem, g, x) {
        Some(w) => file_read(mem, g, w),
        None => Err(StoreError::NotFound),
    }
}

/// Reopening a store on `m` reads `name` as `m0` did or as `data`, and every other
/// name as `m0` did; `m` holds no cluster that looks like the older format unless `m0`
/// did.
pub open spec fn recovers(m0: Seq<u8>, m: Seq<u8>, g: Geo, name: Seq<u8>, data: Seq<u8>) -> bool {
    &&& (reopened_read(m, g, name) == read_result(m0, g, name) || reopened_read(m, g, name) == Ok::<Seq<u8>, StoreError>(data))
    &&& forall|x: Seq<u8>| x != name ==> #[trigger] reopened_read(m, g, x) == read_result(m0, g, x)
    &&& no_v1(m0, g) ==> no_v1(m, g)
}

/// Reopening a store on `m` reads `name` as `m0` did or not at all, and every other
/// name as `m0` did; `m` holds no cluster that looks like the older format unless `m0`
/// did.
pub open spec fn recovers_or_gone(m0: Seq<u8>, m: Seq<u8>, g: Geo, name: Seq<u8>) -> bool {
    &&& (reopened_read(m, g, name) == read_result(m0, g, name) || reopened_read(m, g, name) == Err::<Seq<u8>, StoreError>(StoreError::NotFound))
    &&& forall|x: Seq<u8>| x != name ==> #[trigger] reopened_read(m, g, x) == read_result(m0, g, x)
    &&& no_v1(m0, g) ==> no_v1(m, g)
}

/// Reopening a store on `m` still finds the content that `a` has in `m0`: `a` reads as
/// before or not at all, `b` as before or as that content, at least one of them as that
/// content, and every other name as before; `m` holds no cluster that looks like the
/// older format unless `m0` did.
pub open spec fn recovers_renamed(m0: Seq<u8>, m: Seq<u8>, g: Geo, a: Seq<u8>, b: Seq<u8>) -> bool {
    let content = read_result(m0, g, a);
    &&& (reopened_read(m, g, a) == content || reopened_read(m, g, a) == Err::<Seq<u8>, StoreError>(StoreError::NotFound))
    &&& (reopened_read(m, g, b) == read_result(m0, g, b) || reopened_read(m, g, b) == content)
    &&& (reopened_read(m, g, a) == content || reopened_read(m, g, b) == content)
    &&& forall|x: Seq<u8>| x != a && x != b ==> #[trigger] reopened_read(m, g, x) == read_result(m0, g, x)
    &&& no_v1(m0, g) ==> no_v1(m, g)
}

/// A state that a write of `name` passes through from `m0` once the new copy is whole
/// on `cs`: the clusters of `cs` hold the new copy, and each other cluster holds its
/// bytes of `m0`, or is erased when it belongs to an old copy of `name`.
pub open spec fn replacing(m0: Seq<u8>, m: Seq<u8>, g: Geo, name: Seq<u8>, data: Seq<u8>, generation: u32, cs: Seq<u32>) -> bool {
    &&& m.len() == m0.len()
    &&& forall|k: int| 0 <= k < cs.len() ==> #[trigger] cl(m, g, cs[k] as int) == file_image(g, name, data, generation, cs, k)
    &&& forall|c: int|
        0 <= c < g.n && !cs.contains(c as u32) ==> #[trigger] cl(m, g, c) == cl(m0, g, c) || (in_chains(
            m0,
            g,
            copies(m0, g, name),
            copies(m0, g, name).len() as int,
            c as u32,
        ) && cl(m, g, c) == ff(4096))
}

/// Partitions whose copies of `x` that start whole chains agree have the same copies
/// of `x` that start whole chains.
proof fn lemma_valid_frame(ma: Seq<u8>, mb: Seq<u8>, g: Geo, x: Seq<u8>, k: nat)
    requires
        forall|i: int| 0 <= i < k ==> (#[trigger] is_copy(ma, g, i, x) && valid_at(ma, g, i)) == (is_copy(mb, g, i, x) && valid_at(mb, g, i)),
        forall|i: int| 0 <= i < k && #[trigger] is_copy(ma, g, i, x) && valid_at(ma, g, i) ==> found_at(ma, g, i) == found_at(mb, g, i),
    ensures
        valid_upto(ma, g, x, k) == valid_upto(mb, g, x, k),
    decreases k,
{
    if k > 0 {
        lemma_valid_frame(ma, mb, g, x, (k - 1) as nat);
    }
}

/// A copy of `x` that starts a whole chain is among those the partition lists.
proof fn lemma_valid_has(mem: Seq<u8>, g: Geo, x: Seq<u8>, i: int, k: nat)
    requires
        0 <= i < k,
        is_copy(mem, g, i, x),
        valid_at(mem, g, i),
    ensures
        valid_upto(mem, g, x, k).contains(found_at(mem, g, i)),
    decreases k,
{
    let s = valid_upto(mem, g, x, k);
    if i == k - 1 {
        assert(s.last() == found_at(mem, g, i));
    } else {
        lemma_valid_has(mem, g, x, i, (k - 1) as nat);
        let prev = valid_upto(mem, g, x, (k - 1) as nat);
        let j = choose|j: int| 0 <= j < prev.len() && prev[j] == found_at(mem, g, i);
        assert(s[j] == prev[j]);
    }
}

/// The newest of a list is the copy that is newer than every other one.
proof fn lemma_newest_pick(s: Seq<FoundFile>, f: FoundFile)
    requires
        s.contains(f),
        forall|j: int|
            0 <= j < s.len() && #[trigger] s[j] != f ==> spec_gen_newer(f.header.generation, s[j].header.generation) && !spec_gen_newer(
                s[j].header.generation,
                f.header.generation,
            ),
    ensures
        newest_of(s) == Some(f),
    decreases s.len(),
{
    let l = s.last();
    let d = s.drop_last();
    let j0 = choose|j: int| 0 <= j < s.len() && s[j] == f;
    if l == f {
        lemma_newest_in(d);
        if let Some(b) = newest_of(d) {
            let j = choose|j: int| 0 <= j < d.len() && d[j] == b;
            assert(s[j] == b);
        }
    } else {
        assert(j0 < s.len() - 1);
        assert(d[j0] == f);
        assert forall|j: int| 0 <= j < d.len() && #[trigger] d[j] != f implies spec_gen_newer(f.header.generation, d[j].header.generation)
            && !spec_gen_newer(d[j].header.generation, f.header.generation) by {
            assert(s[j] == d[j]);
        }
        lemma_newest_pick(d, f);
        assert(s[s.len() - 1] == l);
    }
}

/// Reading a well-formed partition fresh or after reopening gives the same.
proof fn lemma_wf_reopen(m0: Seq<u8>, g: Geo, x: Seq<u8>)
    requires
        wf(m0, g),
    ensures
        reopened_read(m0, g, x) == read_result(m0, g, x),
{
    if exists|i: int| 0 <= i < g.n && #[trigger] is_copy(m0, g, i, x) {
        let i = choose|i: int| 0 <= i < g.n && #[trigger] is_copy(m0, g, i, x);
        lemma_wf_winner(m0, g, i);
        assert forall|j: int| 0 <= j < g.n implies (#[trigger] is_copy(m0, g, j, x) <==> j == i) by {
            if j != i && is_copy(m0, g, j, x) {
                reveal(wf);
                assert(name_at(m0, g, i) != name_at(m0, g, j));
            }
        }
        lemma_copies_single(m0, g, x, i, g.n as nat);
        let one = seq![found_at(m0, g, i)];
        assert(one.drop_last() =~= Seq::<FoundFile>::empty());
        assert(newest_of(Seq::<FoundFile>::empty()) is None);
        assert(newest_of(one) == Some(found_at(m0, g, i)));
    } else {
        lemma_copies_none(m0, g, x, g.n as nat);
        lemma_valid_none(m0, g, x, g.n as nat);
    }
}

/// On reopening, a name of a well-formed partition reads as before when the state
/// holds no copy of it that `m0` did not, and the clusters of its copies are intact.
proof fn lemma_reopen_keeps(m0: Seq<u8>, m: Seq<u8>, g: Geo, x: Seq<u8>)
    requires
        wf(m0, g),
        forall|i: int| 0 <= i < g.n && #[trigger] is_copy(m, g, i, x) ==> cl(m, g, i) == cl(m0, g, i),
        forall|i: int, c: u32|
            0 <= i < g.n && #[trigger] is_copy(m0, g, i, x) && #[trigger] file_chain(m0, g, i).contains(c) ==> cl(m, g, c as int) == cl(
                m0,
                g,
                c as int,
            ),
    ensures
        reopened_read(m, g, x) == read_result(m0, g, x),
{
    assert forall|i: int| 0 <= i < g.n && #[trigger] is_copy(m0, g, i, x) implies {
        &&& is_copy(m, g, i, x)
        &&& found_at(m, g, i) == found_at(m0, g, i)
        &&& valid_at(m0, g, i)
        &&& valid_at(m, g, i)
        &&& file_read(m, g, found_at(m, g, i)) == file_read(m0, g, found_at(m0, g, i))
    } by {
        reveal(wf);
        let f = found_at(m0, g, i);
        let q = need_of(f.header);
        lemma_chain_in_range(m0, g, i as u32, q);
        let ch = file_chain(m0, g, i);
        assert(ch[0] == i as u32);
        assert(ch.contains(i as u32));
        assert(cl(m, g, i) == cl(m0, g, i));
        assert forall|j: int| 0 <= j < q implies cl(m, g, #[trigger] chain(m0, g, f.first_cluster, q).unwrap()[j] as int) == cl(
            m0,
            g,
            chain(m0, g, f.first_cluster, q).unwrap()[j] as int,
        ) by {
            assert(ch[j] == chain(m0, g, f.first_cluster, q).unwrap()[j]);
            assert(ch.contains(ch[j]));
        }
        lemma_file_frame(m0, m, g, f);
        assert(found_at(m, g, i) == f);
    }
    assert forall|i: int| 0 <= i < g.n && #[trigger] is_copy(m, g, i, x) implies is_copy(m0, g, i, x) by {
        assert(cl(m, g, i) == cl(m0, g, i));
    }
    lemma_valid_frame(m, m0, g, x, g.n as nat);
    lemma_winner(m, g, x);
    lemma_wf_reopen(m0, g, x);
    lemma_winner(m0, g, x);
}

/// A cluster of the chain of a header is not free.
proof fn lemma_chain_not_free(m0: Seq<u8>, g: Geo, i: int, c: u32)
    requires
        wf(m0, g),
        0 <= i < g.n,
        header_at(m0, g, i) is Some,
        file_chain(m0, g, i).contains(c),
    ensures
        c < g.n,
        word0(m0, g, c as int) == MAGIC || word0(m0, g, c as int) == CONT_B,
{
    reveal(wf);
    lemma_chain_member(m0, g, i, c);
    if c as int == i {
        lemma_header_magic(m0, g, i);
    }
}

/// While the header of the new copy is not written, every name reads on reopening as
/// before the write.
proof fn lemma_saving_reopen(
    m0: Seq<u8>,
    m: Seq<u8>,
    g: Geo,
    v1: Seq<bool>,
    name: Seq<u8>,
    data: Seq<u8>,
    generation: u32,
    cs: Seq<u32>,
    x: Seq<u8>,
)
    requires
        wf(m0, g),
        g.base + g.n * 4096 <= 0x1_0000_0000,
        g.base + g.n * 4096 <= m0.len(),
        m.len() == m0.len(),
        new_file_ok(m0, g, v1, name, data, cs),
        cs.len() > 0,
        forall|c: int| 0 <= c < g.n && !cs.contains(c as u32) ==> #[trigger] cl(m, g, c) == cl(m0, g, c),
        cl(m, g, cs[0] as int) == cl(m0, g, cs[0] as int),
        forall|k: int| 1 <= k < cs.len() ==> #[trigger] cl(m, g, cs[k] as int) == cl(m0, g, cs[k] as int) || cl(m, g, cs[k] as int)
            == file_image(g, name, data, generation, cs, k),
    ensures
        reopened_read(m, g, x) == read_result(m0, g, x),
{
    assert forall|i: int| 0 <= i < g.n && #[trigger] is_copy(m, g, i, x) implies cl(m, g, i) == cl(m0, g, i) by {
        if cs.contains(i as u32) {
            let k = choose|k: int| 0 <= k < cs.len() && cs[k] == i as u32;
            if k > 0 && cl(m, g, cs[k] as int) != cl(m0, g, cs[k] as int) {
                lemma_saved_cluster(m, g, name, data, generation, cs, k);
                lemma_header_magic(m, g, i);
            }
        }
    }
    assert forall|i: int, c: u32| 0 <= i < g.n && #[trigger] is_copy(m0, g, i, x) && #[trigger] file_chain(m0, g, i).contains(c) implies cl(
        m,
        g,
        c as int,
    ) == cl(m0, g, c as int) by {
        lemma_chain_not_free(m0, g, i, c);
        if cs.contains(c) {
            let k = choose|k: int| 0 <= k < cs.len() && cs[k] == c;
            assert(crate::store::free_at(m0, g, v1, cs[k] as int));
        }
    }
    lemma_reopen_keeps(m0, m, g, x);
}

/// Once the new copy is whole, every other name reads on reopening as before the write.
proof fn lemma_replacing_other(
    m0: Seq<u8>,
    m: Seq<u8>,
    g: Geo,
    v1: Seq<bool>,
    name: Seq<u8>,
    data: Seq<u8>,
    generation: u32,
    cs: Seq<u32>,
    x: Seq<u8>,
)
    requires
        wf(m0, g),
        g.base + g.n * 4096 <= 0x1_0000_0000,
        g.base + g.n * 4096 <= m0.len(),
        m.len() == m0.len(),
        new_file_ok(m0, g, v1, name, data, cs),
        cs.len() > 0,
        replacing(m0, m, g, name, data, generation, cs),
        x != name,
    ensures
        reopened_read(m, g, x) == read_result(m0, g, x),
{
    let fs = copies(m0, g, name);
    lemma_saved_file(m, g, name, data, generation, cs);
    lemma_copies_members(m0, g, name, g.n as nat);
    assert forall|i: int| 0 <= i < g.n && #[trigger] is_copy(m, g, i, x) implies cl(m, g, i) == cl(m0, g, i) by {
        if cs.contains(i as u32) {
            let k = choose|k: int| 0 <= k < cs.len() && cs[k] == i as u32;
            if k > 0 {
                lemma_header_magic(m, g, i);
            }
        } else if cl(m, g, i) != cl(m0, g, i) {
            lemma_ff_cluster(m, g, i);
        }
    }
    assert forall|i: int, c: u32| 0 <= i < g.n && #[trigger] is_copy(m0, g, i, x) && #[trigger] file_chain(m0, g, i).contains(c) implies cl(
        m,
        g,
        c as int,
    ) == cl(m0, g, c as int) by {
        lemma_chain_not_free(m0, g, i, c);
        if cs.contains(c) {
            let k = choose|k: int| 0 <= k < cs.len() && cs[k] == c;
            assert(crate::store::free_at(m0, g, v1, cs[k] as int));
        }
        if in_chains(m0, g, fs, fs.len() as int, c) {
            let j = choose|j: int| 0 <= j < fs.len() && #[trigger] file_chain(m0, g, fs[j].first_cluster as int).contains(c);
            let h = fs[j].first_cluster as int;
            assert(is_copy(m0, g, h, name));
            assert(h != i);
            reveal(wf);
            assert(file_chain(m0, g, i).disjoint(file_chain(m0, g, h)));
        }
    }
    lemma_reopen_keeps(m0, m, g, x);
}

/// Once the new copy is whole, the written name reads on reopening as the new data: the
/// new copy starts a whole chain and is newer than the old one.
proof fn lemma_replacing_name(
    m0: Seq<u8>,
    m: Seq<u8>,
    g: Geo,
    v1: Seq<bool>,
    name: Seq<u8>,
    data: Seq<u8>,
    generation: u32,
    cs: Seq<u32>,
)
    requires
        wf(m0, g),
        g.base + g.n * 4096 <= 0x1_0000_0000,
        g.base + g.n * 4096 <= m0.len(),
        m.len() == m0.len(),
        new_file_ok(m0, g, v1, name, data, cs),
        cs.len() > 0,
        generation == next_generation(copies(m0, g, name)),
        replacing(m0, m, g, name, data, generation, cs),
    ensures
        reopened_read(m, g, name) == Ok::<Seq<u8>, StoreError>(data),
{
    lemma_saved_file(m, g, name, data, generation, cs);
    let f = FoundFile { first_cluster: cs[0], header: crate::store::file_header(name, data, generation) };
    let c0 = cs[0] as int;
    assert(found_at(m, g, c0) == f);
    assert(need_of(f.header) == cs.len());
    assert(file_chain(m, g, c0) == cs);
    assert(valid_at(m, g, c0));
    lemma_valid_has(m, g, name, c0, g.n as nat);
    let vs = valid_upto(m, g, name, g.n as nat);
    crate::store::lemma_valid_members(m, g, name, g.n as nat);
    assert forall|j: int| 0 <= j < vs.len() && #[trigger] vs[j] != f implies spec_gen_newer(f.header.generation, vs[j].header.generation)
        && !spec_gen_newer(vs[j].header.generation, f.header.generation) by {
        let e = vs[j];
        let i = e.first_cluster as int;
        assert(is_copy(m, g, i, name));
        if cs.contains(i as u32) {
            let k = choose|k: int| 0 <= k < cs.len() && cs[k] == i as u32;
            if k > 0 {
                lemma_header_magic(m, g, i);
            }
        } else if cl(m, g, i) != cl(m0, g, i) {
            lemma_ff_cluster(m, g, i);
        }
        assert(cl(m, g, i) == cl(m0, g, i));
        assert(is_copy(m0, g, i, name));
        assert(found_at(m0, g, i) == e);
        assert forall|j2: int| 0 <= j2 < g.n implies (#[trigger] is_copy(m0, g, j2, name) <==> j2 == i) by {
            if j2 != i && is_copy(m0, g, j2, name) {
                reveal(wf);
                assert(name_at(m0, g, i) != name_at(m0, g, j2));
            }
        }
        lemma_copies_single(m0, g, name, i, g.n as nat);
        let one = seq![e];
        assert(one.drop_last() =~= Seq::<FoundFile>::empty());
        assert(newest_of(Seq::<FoundFile>::empty()) is None);
        assert(newest_of(one) == Some(e));
        let a = e.header.generation;
        assert(generation == vstd::wrapping::u32_specs::wrapping_add(a, 1));
        assert(generation == ((a + 1) % 0x1_0000_0000) as u32);
        lemma_gen_newer(a, generation);
    }
    lemma_newest_pick(vs, f);
}

/// No state that a write passes through looks like the older format where `m0` did not.
proof fn lemma_write_no_v1(
    m0: Seq<u8>,
    m: Seq<u8>,
    g: Geo,
    v1: Seq<bool>,
    name: Seq<u8>,
    data: Seq<u8>,
    generation: u32,
    cs: Seq<u32>,
)
    requires
        g.base + g.n * 4096 <= 0x1_0000_0000,
        g.base + g.n * 4096 <= m0.len(),
        new_file_ok(m0, g, v1, name, data, cs),
        cs.len() > 0,
        saving(m0, m, g, name, data, generation, cs) || replacing(m0, m, g, name, data, generation, cs),
    ensures
        no_v1(m0, g) ==> no_v1(m, g),
{
    if no_v1(m0, g) {
        let all = forall|k: int| 0 <= k < cs.len() ==> #[trigger] cl(m, g, cs[k] as int) == file_image(g, name, data, generation, cs, k);
        if all {
            lemma_saved_file(m, g, name, data, generation, cs);
            lemma_header_magic(m, g, cs[0] as int);
        }
        assert forall|c: int| 0 <= c < g.n implies !#[trigger] looks_v1(m, g, c) by {
            if cs.contains(c as u32) {
                let k = choose|k: int| 0 <= k < cs.len() && cs[k] == c as u32;
                if cl(m, g, c) == cl(m0, g, c) {
                    assert(!looks_v1(m0, g, c));
                } else {
                    assert(cl(m, g, cs[k] as int) == file_image(g, name, data, generation, cs, k));
                    if k > 0 {
                        lemma_saved_cluster(m, g, name, data, generation, cs, k);
                    }
                    lemma_cluster_not_v1(m, g, c);
                }
            } else if cl(m, g, c) == cl(m0, g, c) {
                assert(!looks_v1(m0, g, c));
            } else {
                lemma_cluster_not_v1(m, g, c);
            }
        }
    }
}

/// A power loss during a write loses neither the old copy nor the other files: every
/// state that writing `name` with `data` on the free clusters `cs` passes through (the
/// new copy laid out with its header last, then the old copies erased) reads, once the
/// store is reopened, `name` as before the write while the header of the new copy is
/// not written and as `data` once it is, and every other name as before the write.
pub proof fn lemma_write_reopens(
    m0: Seq<u8>,
    m: Seq<u8>,
    g: Geo,
    v1: Seq<bool>,
    name: Seq<u8>,
    data: Seq<u8>,
    generation: u32,
    cs: Seq<u32>,
)
    requires
        wf(m0, g),
        g.base + g.n * 4096 <= 0x1_0000_0000,
        g.base + g.n * 4096 <= m0.len(),
        new_file_ok(m0, g, v1, name, data, cs),
        cs.len() > 0,
        generation == next_generation(copies(m0, g, name)),
        saving(m0, m, g, name, data, generation, cs) || replacing(m0, m, g, name, data, generation, cs),
    ensures
        reopened_read(m, g, name) == (if replacing(m0, m, g, name, data, generation, cs) {
            Ok::<Seq<u8>, StoreError>(data)
        } else {
            read_result(m0, g, name)
        }),
        forall|x: Seq<u8>| x != name ==> #[trigger] reopened_read(m, g, x) == read_result(m0, g, x),
        no_v1(m0, g) ==> no_v1(m, g),
{
    lemma_write_no_v1(m0, m, g, v1, name, data, generation, cs);
    if replacing(m0, m, g, name, data, generation, cs) {
        lemma_replacing_name(m0, m, g, v1, name, data, generation, cs);
        assert forall|x: Seq<u8>| x != name implies #[trigger] reopened_read(m, g, x) == read_result(m0, g, x) by {
            lemma_replacing_other(m0, m, g, v1, name, data, generation, cs, x);
        }
    } else {
        if forall|k: int| 0 <= k < cs.len() ==> #[trigger] cl(m, g, cs[k] as int) == file_image(g, name, data, generation, cs, k) {
            assert forall|c: int| 0 <= c < g.n && !cs.contains(c as u32) implies #[trigger] cl(m, g, c) == cl(m0, g, c) || (in_chains(
                m0,
                g,
                copies(m0, g, name),
                copies(m0, g, name).len() as int,
                c as u32,
            ) && cl(m, g, c) == ff(4096)) by {}
            assert(false);
        }
        assert forall|x: Seq<u8>| #[trigger] reopened_read(m, g, x) == read_result(m0, g, x) by {
            lemma_saving_reopen(m0, m, g, v1, name, data, generation, cs, x);
        }
        assert(reopened_read(m, g, name) == read_result(m0, g, name));
    }
}

/// Erasing the old copies after the new one is whole passes through states that replace
/// the file.
proof fn lemma_dropping_replacing(
    m0: Seq<u8>,
    m1: Seq<u8>,
    m: Seq<u8>,
    g: Geo,
    v1: Seq<bool>,
    name: Seq<u8>,
    data: Seq<u8>,
    generation: u32,
    cs: Seq<u32>,
)
    requires
        wf(m0, g),
        new_file_ok(m0, g, v1, name, data, cs),
        m1.len() == m0.len(),
        forall|k: int| 0 <= k < cs.len() ==> #[trigger] cl(m1, g, cs[k] as int) == file_image(g, name, data, generation, cs, k),
        forall|c: int| 0 <= c < g.n && !cs.contains(c as u32) ==> #[trigger] cl(m1, g, c) == cl(m0, g, c),
        dropping(m1, m, g, m0, copies(m0, g, name)),
    ensures
        replacing(m0, m, g, name, data, generation, cs),
{
    let fs = copies(m0, g, name);
    lemma_copies_members(m0, g, name, g.n as nat);
    assert forall|k: int| 0 <= k < cs.len() implies #[trigger] cl(m, g, cs[k] as int) == file_image(g, name, data, generation, cs, k) by {
        let c = cs[k];
        if in_chains(m0, g, fs, fs.len() as int, c) {
            let j = choose|j: int| 0 <= j < fs.len() && #[trigger] file_chain(m0, g, fs[j].first_cluster as int).contains(c);
            let h = fs[j].first_cluster as int;
            assert(is_copy(m0, g, h, name));
            lemma_chain_not_free(m0, g, h, c);
            assert(crate::store::free_at(m0, g, v1, cs[k] as int));
        }
        assert(cl(m, g, c as int) == cl(m1, g, c as int));
    }
}

/// Every state that a write passes through, as its history records them, reopens as
/// before the write or as after it.
pub(crate) proof fn lemma_write_history(
    m0: Seq<u8>,
    m1: Seq<u8>,
    hist: Seq<Seq<u8>>,
    h0: int,
    h1: int,
    g: Geo,
    v1: Seq<bool>,
    name: Seq<u8>,
    data: Seq<u8>,
    generation: u32,
    cs: Seq<u32>,
)
    requires
        wf(m0, g),
        g.base + g.n * 4096 <= 0x1_0000_0000,
        g.base + g.n * 4096 <= m0.len(),
        new_file_ok(m0, g, v1, name, data, cs),
        cs.len() > 0,
        generation == next_generation(copies(m0, g, name)),
        0 <= h0 <= h1 <= hist.len(),
        forall|t: int| h0 <= t < h1 ==> saving(m0, #[trigger] hist[t], g, name, data, generation, cs),
        m1.len() == m0.len(),
        forall|k: int| 0 <= k < cs.len() ==> #[trigger] cl(m1, g, cs[k] as int) == file_image(g, name, data, generation, cs, k),
        forall|c: int| 0 <= c < g.n && !cs.contains(c as u32) ==> #[trigger] cl(m1, g, c) == cl(m0, g, c),
        forall|t: int| h1 <= t < hist.len() ==> dropping(m1, #[trigger] hist[t], g, m0, copies(m0, g, name)),
    ensures
        forall|t: int| h0 <= t < hist.len() ==> recovers(m0, #[trigger] hist[t], g, name, data),
{
    assert forall|t: int| h0 <= t < hist.len() implies recovers(m0, #[trigger] hist[t], g, name, data) by {
        let m = hist[t];
        if t >= h1 {
            lemma_dropping_replacing(m0, m1, m, g, v1, name, data, generation, cs);
        }
        lemma_write_reopens(m0, m, g, v1, name, data, generation, cs);
    }
}

/// A chain whose later clusters are continuation clusters in a state where each
/// cluster holds its bytes of `m0` or is erased runs over intact clusters, as in `m0`.
proof fn lemma_chain_intact(m0: Seq<u8>, m: Seq<u8>, g: Geo, c0: u32, q: nat, k: nat)
    requires
        1 <= k <= q,
        c0 < g.n,
        chain(m, g, c0, q) is Some,
        forall|j: int| 1 <= j < q ==> word0(m, g, #[trigger] chain(m, g, c0, q).unwrap()[j] as int) == CONT_B,
        cl(m, g, c0 as int) == cl(m0, g, c0 as int),
        forall|c: int| 0 <= c < g.n ==> #[trigger] cl(m, g, c) == cl(m0, g, c) || cl(m, g, c) == ff(4096),
    ensures
        chain(m, g, c0, k) == chain(m0, g, c0, k),
        forall|j: int| 0 <= j < k ==> #[trigger] cl(m, g, chain(m, g, c0, k).unwrap()[j] as int) == cl(m0, g, chain(m, g, c0, k).unwrap()[j] as int),
    decreases k,
{
    let full = chain(m, g, c0, q).unwrap();
    lemma_chain_prefix(m, g, c0, q, k);
    lemma_chain_in_range(m, g, c0, q);
    if k > 1 {
        lemma_chain_intact(m0, m, g, c0, q, (k - 1) as nat);
        lemma_chain_prefix(m, g, c0, q, (k - 1) as nat);
        let p = chain(m, g, c0, (k - 1) as nat).unwrap();
        let last = p.last();
        assert(p[p.len() - 1] == last);
        assert(cl(m, g, last as int) == cl(m0, g, last as int));
        assert(next_of(m, g, last as int) == next_of(m0, g, last as int));
        let ck = chain(m, g, c0, k).unwrap();
        assert(ck == full.take(k as int));
        let x = ck[k - 1];
        assert(x == full[k - 1]);
        assert(word0(m, g, x as int) == CONT_B);
        if cl(m, g, x as int) != cl(m0, g, x as int) {
            lemma_ff_cluster(m, g, x as int);
        }
        assert forall|j: int| 0 <= j < k implies #[trigger] cl(m, g, chain(m, g, c0, k).unwrap()[j] as int) == cl(m0, g, chain(m, g, c0, k).unwrap()[j] as int) by {
            if j < k - 1 {
                assert(ck[j] == p[j]);
            }
        }
    }
}

/// Erasing the copies of `name` passes through states that read `name` on reopening as
/// before, or not at all, and every other name as before.
pub proof fn lemma_delete_reopens(m0: Seq<u8>, m: Seq<u8>, g: Geo, name: Seq<u8>)
    requires
        wf(m0, g),
        dropping(m0, m, g, m0, copies(m0, g, name)),
    ensures
        reopened_read(m, g, name) == read_result(m0, g, name) || reopened_read(m, g, name) == Err::<Seq<u8>, StoreError>(StoreError::NotFound),
        forall|x: Seq<u8>| x != name ==> #[trigger] reopened_read(m, g, x) == read_result(m0, g, x),
        no_v1(m0, g) ==> no_v1(m, g),
{
    let fs = copies(m0, g, name);
    lemma_copies_members(m0, g, name, g.n as nat);
    assert forall|c: int| 0 <= c < g.n implies #[trigger] cl(m, g, c) == cl(m0, g, c) || cl(m, g, c) == ff(4096) by {}
    if no_v1(m0, g) {
        assert forall|c: int| 0 <= c < g.n implies !#[trigger] looks_v1(m, g, c) by {
            if cl(m, g, c) == ff(4096) {
                lemma_cluster_not_v1(m, g, c);
            } else {
                assert(cl(m, g, c) == cl(m0, g, c));
                assert(!looks_v1(m0, g, c));
            }
        }
    }
    assert forall|x: Seq<u8>| x != name implies #[trigger] reopened_read(m, g, x) == read_result(m0, g, x) by {
        assert forall|i: int| 0 <= i < g.n && #[trigger] is_copy(m, g, i, x) implies cl(m, g, i) == cl(m0, g, i) by {
            if cl(m, g, i) != cl(m0, g, i) {
                lemma_ff_cluster(m, g, i);
            }
        }
        assert forall|i: int, c: u32| 0 <= i < g.n && #[trigger] is_copy(m0, g, i, x) && #[trigger] file_chain(m0, g, i).contains(c) implies cl(
            m,
            g,
            c as int,
        ) == cl(m0, g, c as int) by {
            lemma_chain_not_free(m0, g, i, c);
            if in_chains(m0, g, fs, fs.len() as int, c) {
                let j = choose|j: int| 0 <= j < fs.len() && #[trigger] file_chain(m0, g, fs[j].first_cluster as int).contains(c);
                let h = fs[j].first_cluster as int;
                assert(is_copy(m0, g, h, name));
                assert(h != i);
                reveal(wf);
                assert(file_chain(m0, g, i).disjoint(file_chain(m0, g, h)));
            }
        }
        lemma_reopen_keeps(m0, m, g, x);
    }
    lemma_winner(m, g, name);
    lemma_wf_reopen(m0, g, name);
    if let Some(w) = winner(m, g, name) {
        let i = w.first_cluster as int;
        if cl(m, g, i) != cl(m0, g, i) {
            lemma_ff_cluster(m, g, i);
        }
        assert(is_copy(m0, g, i, name));
        lemma_wf_winner(m0, g, i);
        assert(found_at(m0, g, i) == w);
        let q = need_of(w.header);
        lemma_chain_in_range(m, g, w.first_cluster, q);
        lemma_chain_intact(m0, m, g, w.first_cluster, q, q);
        lemma_file_frame(m0, m, g, w);
    }
}

/// Healing a partition that holds several copies of `x` that start whole chains keeps
/// the newest of them: when the copy `f` is newer than every other such copy, the
/// healed partition holds `f` as the only copy of `x` and reads `x` as `f` read.
pub proof fn lemma_heal_keeps_newest(mem: Seq<u8>, m2: Seq<u8>, g: Geo, x: Seq<u8>, f: FoundFile)
    requires
        g.base + g.n * 4096 <= mem.len(),
        m2.len() == mem.len(),
        forall|c: int| 0 <= c < g.n ==> #[trigger] cl(m2, g, c) == healed(mem, g, c),
        f.first_cluster < g.n,
        is_copy(mem, g, f.first_cluster as int, x),
        valid_at(mem, g, f.first_cluster as int),
        f == found_at(mem, g, f.first_cluster as int),
        forall|i: int| 0 <= i < g.n && i != f.first_cluster && #[trigger] is_copy(mem, g, i, x) && valid_at(mem, g, i)
            ==> spec_gen_newer(f.header.generation, header_at(mem, g, i).unwrap().generation)
            && !spec_gen_newer(header_at(mem, g, i).unwrap().generation, f.header.generation),
    ensures
        copies(m2, g, x) == seq![f],
        read_result(m2, g, x) == file_read(mem, g, f),
{
    lemma_valid_has(mem, g, x, f.first_cluster as int, g.n as nat);
    let vs = valid_upto(mem, g, x, g.n as nat);
    crate::store::lemma_valid_members(mem, g, x, g.n as nat);
    assert forall|j: int| 0 <= j < vs.len() && #[trigger] vs[j] != f implies spec_gen_newer(f.header.generation, vs[j].header.generation)
        && !spec_gen_newer(vs[j].header.generation, f.header.generation) by {
        let e = vs[j];
        assert(is_copy(mem, g, e.first_cluster as int, x));
        assert(e == found_at(mem, g, e.first_cluster as int));
        assert(e.first_cluster != f.first_cluster);
    }
    lemma_newest_pick(vs, f);
    crate::store::lemma_heal_outcome(mem, m2, g);
}

} // verus!
