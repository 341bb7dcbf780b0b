//! Content fingerprinting: splitting a blob's byte stream into
//! content-defined blocks and mapping each block hash to the cumulative
//! byte length of the blocks that hash to it.

use vstd::prelude::*;
use crate::hash::{block_hash, hash_bytes};

verus! {

/// `m` with `n` more bytes recorded under key `k`.
pub open spec fn bump(m: Map<u64, nat>, k: u64, n: nat) -> Map<u64, nat> {
    m.insert(
        k,
        (if m.dom().contains(k) {
            m[k]
        } else {
            0nat
        }) + n,
    )
}

/// The mapping denoted by a sequence of key/length pairs; with unique
/// keys, each pair contributes its own binding.
pub open spec fn pairs_map(s: Seq<(u64, usize)>) -> Map<u64, nat>
    decreases s.len(),
{
    if s.len() == 0 {
        Map::empty()
    } else {
        pairs_map(s.drop_first()).insert(s[0].0, s[0].1 as nat)
    }
}

/// No pair in `s` carries key `k`.
pub open spec fn key_absent(s: Seq<(u64, usize)>, k: u64) -> bool {
    forall|j: int| 0 <= j < s.len() ==> (#[trigger] s[j]).0 != k
}

proof fn lemma_pairs_map_finite(s: Seq<(u64, usize)>)
    ensures
        pairs_map(s).dom().finite(),
    decreases s.len(),
{
    if s.len() > 0 {
        lemma_pairs_map_finite(s.drop_first());
    }
}

proof fn lemma_pairs_map_absent(s: Seq<(u64, usize)>, k: u64)
    requires
        key_absent(s, k),
    ensures
        !pairs_map(s).dom().contains(k),
    decreases s.len(),
{
    if s.len() > 0 {
        assert(s[0].0 != k);
        lemma_pairs_map_absent(s.drop_first(), k);
    }
}

proof fn lemma_pairs_map_first(s: Seq<(u64, usize)>, i: int)
    requires
        0 <= i < s.len(),
        forall|j: int| 0 <= j < i ==> (#[trigger] s[j]).0 != s[i].0,
    ensures
        pairs_map(s).dom().contains(s[i].0),
        pairs_map(s)[s[i].0] == s[i].1 as nat,
    decreases i,
{
    if i == 0 {
    } else {
        assert(s.drop_first()[i - 1] == s[i]);
        lemma_pairs_map_first(s.drop_first(), i - 1);
        assert(s[0].0 != s[i].0);
    }
}

proof fn lemma_pairs_map_update(s: Seq<(u64, usize)>, i: int, v: usize)
    requires
        0 <= i < s.len(),
        forall|j: int| 0 <= j < i ==> (#[trigger] s[j]).0 != s[i].0,
    ensures
        pairs_map(s.update(i, (s[i].0, v))) =~= pairs_map(s).insert(s[i].0, v as nat),
    decreases i,
{
    let t = s.update(i, (s[i].0, v));
    if i == 0 {
        assert(t.drop_first() =~= s.drop_first());
    } else {
        assert(t.drop_first() =~= s.drop_first().update(i - 1, (s[i].0, v)));
        assert(s.drop_first()[i - 1] == s[i]);
        lemma_pairs_map_update(s.drop_first(), i - 1, v);
        assert(s[0].0 != s[i].0);
    }
}

proof fn lemma_pairs_map_push(s: Seq<(u64, usize)>, k: u64, v: usize)
    requires
        key_absent(s, k),
    ensures
        pairs_map(s.push((k, v))) =~= pairs_map(s).insert(k, v as nat),
    decreases s.len(),
{
    let t = s.push((k, v));
    assert(t.len() == s.len() + 1);
    assert(pairs_map(t) == pairs_map(t.drop_first()).insert(t[0].0, t[0].1 as nat));
    if s.len() == 0 {
        assert(t[0] == (k, v));
        assert(t.drop_first() =~= Seq::<(u64, usize)>::empty());
    } else {
        assert(t[0] == s[0]);
        assert(t.drop_first() =~= s.drop_first().push((k, v)));
        assert(s[0].0 != k);
        lemma_pairs_map_push(s.drop_first(), k, v);
    }
}

proof fn lemma_pairs_map_len(s: Seq<(u64, usize)>)
    requires
        forall|i: int, j: int|
            0 <= i < j < s.len() ==> (#[trigger] s[i]).0 != (#[trigger] s[j]).0,
    ensures
        pairs_map(s).dom().len() == s.len(),
    decreases s.len(),
{
    broadcast use vstd::set::group_set_axioms;

    if s.len() == 0 {
        assert(pairs_map(s).dom() =~= Set::<u64>::empty());
    } else {
        let rest = s.drop_first();
        assert(forall|i: int, j: int|
            0 <= i < j < rest.len() ==> (#[trigger] rest[i]).0 != (#[trigger] rest[j]).0) by {
            assert(forall|i: int| 0 <= i < rest.len() ==> rest[i] == s[i + 1]);
        }
        lemma_pairs_map_len(rest);
        lemma_pairs_map_finite(rest);
        assert(key_absent(rest, s[0].0)) by {
            assert(forall|j: int| 0 <= j < rest.len() ==> rest[j] == s[j + 1]);
        }
        lemma_pairs_map_absent(rest, s[0].0);
        assert(pairs_map(s).dom() =~= pairs_map(rest).dom().insert(s[0].0));
    }
}

/// The fingerprint of one blob: for each block hash, the cumulative byte
/// length of all blocks of the content that hash to that key.
pub struct BlockCounts {
    pairs: Vec<(u64, usize)>,
}

impl View for BlockCounts {
    type V = Map<u64, nat>;

    closed spec fn view(&self) -> Map<u64, nat> {
        pairs_map(self.pairs@)
    }
}

impl BlockCounts {
    /// Well-formed: each block hash is recorded at most once.
    pub closed spec fn wf(self) -> bool {
        forall|i: int, j: int|
            0 <= i < j < self.pairs@.len() ==> (#[trigger] self.pairs@[i]).0 != (
            #[trigger] self.pairs@[j]).0
    }

    /// The mapping of a fresh fingerprint is empty.
    pub fn new() -> (r: BlockCounts)
        ensures
            r.wf(),
            r@ == Map::<u64, nat>::empty(),
    {
        BlockCounts { pairs: Vec::new() }
    }

    /// The domain of the mapping is always finite.
    pub proof fn lemma_finite_dom(self)
        ensures
            self@.dom().finite(),
    {
        lemma_pairs_map_finite(self.pairs@);
    }

    /// The number of distinct block hashes recorded.
    pub fn len(&self) -> (n: usize)
        requires
            self.wf(),
        ensures
            n == self@.dom().len(),
    {
        proof {
            lemma_pairs_map_len(self.pairs@);
        }
        self.pairs.len()
    }

    /// The cumulative byte length recorded under `key`, or zero when the
    /// key is absent.
    pub fn get(&self, key: u64) -> (n: usize)
        requires
            self.wf(),
        ensures
            n as nat == (if self@.dom().contains(key) {
                self@[key]
            } else {
                0nat
            }),
    {
        let mut i: usize = 0;
        while i < self.pairs.len()
            invariant
                i <= self.pairs@.len(),
                forall|j: int| 0 <= j < i ==> (#[trigger] self.pairs@[j]).0 != key,
            decreases self.pairs@.len() - i,
        {
            if self.pairs[i].0 == key {
                proof {
                    lemma_pairs_map_first(self.pairs@, i as int);
                }
                return self.pairs[i].1;
            }
            i = i + 1;
        }
        proof {
            lemma_pairs_map_absent(self.pairs@, key);
        }
        0
    }

    /// Records `n` more bytes under `key`: the mapping afterwards is the
    /// old mapping with `n` added to the total stored under `key`.
    pub fn add_hash(&mut self, key: u64, n: usize)
        requires
            old(self).wf(),
            (if old(self)@.dom().contains(key) {
                old(self)@[key]
            } else {
                0nat
            }) + n <= usize::MAX,
        ensures
            final(self).wf(),
            final(self)@ == bump(old(self)@, key, n as nat),
    {
        let mut i: usize = 0;
        while i < self.pairs.len()
            invariant
                i <= self.pairs@.len(),
                forall|j: int| 0 <= j < i ==> (#[trigger] self.pairs@[j]).0 != key,
                self == old(self),
                old(self).wf(),
                (if old(self)@.dom().contains(key) {
                    old(self)@[key]
                } else {
                    0nat
                }) + n <= usize::MAX,
            decreases self.pairs@.len() - i,
        {
            if self.pairs[i].0 == key {
                proof {
                    lemma_pairs_map_first(self.pairs@, i as int);
                }
                let cur = self.pairs[i].1;
                let ghost s = self.pairs@;
                self.pairs[i] = (key, cur + n);
                proof {
                    lemma_pairs_map_update(s, i as int, (cur + n) as usize);
                    assert(self@ =~= bump(old(self)@, key, n as nat));
                    assert(forall|x: int|
                        0 <= x < s.len() ==> (#[trigger] self.pairs@[x]).0 == s[x].0);
                    assert forall|a: int, b: int|
                        0 <= a < b < self.pairs@.len() implies (#[trigger] self.pairs@[a]).0 != (
                    #[trigger] self.pairs@[b]).0 by {
                        assert(self.pairs@[a].0 == s[a].0);
                        assert(self.pairs@[b].0 == s[b].0);
                    }
                }
                return;
            }
            i = i + 1;
        }
        proof {
            lemma_pairs_map_absent(self.pairs@, key);
        }
        let ghost s = self.pairs@;
        self.pairs.push((key, n));
        proof {
            lemma_pairs_map_push(s, key, n);
            assert(self@ =~= bump(old(self)@, key, n as nat));
            assert forall|a: int, b: int|
                0 <= a < b < self.pairs@.len() implies (#[trigger] self.pairs@[a]).0 != (
            #[trigger] self.pairs@[b]).0 by {
                if b < s.len() as int {
                    assert(self.pairs@[a] == s[a]);
                    assert(self.pairs@[b] == s[b]);
                } else {
                    assert(self.pairs@[a] == s[a]);
                    assert(self.pairs@[b].0 == key);
                }
            }
        }
    }
}

/// The block delimiter: a newline ends the current block.
pub const NEWLINE: u8 = 10;

/// The byte sequences denoted by a list of chunks.
pub open spec fn chunks_view(chunks: Seq<Vec<u8>>) -> Seq<Seq<u8>> {
    chunks.map_values(|c: Vec<u8>| c@)
}

/// The bytes of the trailing, not yet terminated block after scanning
/// `content` with `block` as the block under construction. A block ends
/// at each newline and whenever it reaches `bs` bytes.
pub open spec fn scan_block(content: Seq<u8>, bs: nat, block: Seq<u8>) -> Seq<u8>
    decreases content.len(),
{
    if content.len() == 0 {
        block
    } else {
        let nb = block.push(content[0]);
        if content[0] == NEWLINE || nb.len() == bs {
            scan_block(content.drop_first(), bs, Seq::empty())
        } else {
            scan_block(content.drop_first(), bs, nb)
        }
    }
}

/// The accumulated mapping after scanning `content` with `block` as the
/// block under construction and `acc` as the mapping so far: each
/// finished block adds its byte length under its hash.
pub open spec fn scan_counts(content: Seq<u8>, bs: nat, block: Seq<u8>, acc: Map<u64, nat>) -> Map<
    u64,
    nat,
>
    decreases content.len(),
{
    if content.len() == 0 {
        acc
    } else {
        let nb = block.push(content[0]);
        if content[0] == NEWLINE || nb.len() == bs {
            scan_counts(content.drop_first(), bs, Seq::empty(), bump(acc, hash_bytes(nb), nb.len()))
        } else {
            scan_counts(content.drop_first(), bs, nb, acc)
        }
    }
}

/// Counts the trailing partial block, if any, exactly like a normal block.
pub open spec fn finish_counts(block: Seq<u8>, acc: Map<u64, nat>) -> Map<u64, nat> {
    if block.len() == 0 {
        acc
    } else {
        bump(acc, hash_bytes(block), block.len())
    }
}

/// The fingerprint mapping of `content` under block-size limit `bs`:
/// for each block hash, the cumulative byte length of the blocks of
/// `content` hashing to it.
pub open spec fn block_counts_of(content: Seq<u8>, bs: nat) -> Map<u64, nat> {
    finish_counts(
        scan_block(content, bs, Seq::empty()),
        scan_counts(content, bs, Seq::empty(), Map::empty()),
    )
}

/// The sum of all values of a finite mapping.
pub open spec fn map_sum(m: Map<u64, nat>) -> nat
    decreases m.dom().len(),
    when m.dom().finite()
    via map_sum_decreases
{
    if m.dom().len() == 0 {
        0nat
    } else {
        let k = m.dom().choose();
        m[k] + map_sum(m.remove(k))
    }
}

#[via_fn]
proof fn map_sum_decreases(m: Map<u64, nat>) {
    broadcast use vstd::set::group_set_axioms;

    if m.dom().len() != 0 {
        let k = m.dom().choose();
        assert(m.dom().contains(k));
        assert(m.remove(k).dom() =~= m.dom().remove(k));
    }
}

/// An empty mapping sums to zero.
pub proof fn lemma_map_sum_empty()
    ensures
        map_sum(Map::<u64, nat>::empty()) == 0,
{
    broadcast use vstd::set::group_set_axioms;

    assert(Map::<u64, nat>::empty().dom() =~= Set::<u64>::empty());
}

/// Taking one binding out of a finite mapping takes exactly its value
/// out of the sum.
pub proof fn lemma_map_sum_remove(m: Map<u64, nat>, k: u64)
    requires
        m.dom().finite(),
        m.dom().contains(k),
    ensures
        map_sum(m) == m[k] + map_sum(m.remove(k)),
    decreases m.dom().len(),
{
    broadcast use vstd::set::group_set_axioms;

    let k0 = m.dom().choose();
    assert(m.dom().contains(k0));
    assert(m.remove(k0).dom() =~= m.dom().remove(k0));
    if k0 == k {
    } else {
        let m1 = m.remove(k0);
        assert(m1.dom().contains(k));
        lemma_map_sum_remove(m1, k);
        assert(m.remove(k).dom() =~= m.dom().remove(k));
        assert(m.remove(k).dom().contains(k0));
        lemma_map_sum_remove(m.remove(k), k0);
        assert(m1.remove(k) =~= m.remove(k).remove(k0));
        assert(m.remove(k)[k0] == m[k0]);
        assert(m1[k] == m[k]);
    }
}

/// Recording `n` more bytes under any key grows the sum by exactly `n`.
pub proof fn lemma_map_sum_bump(m: Map<u64, nat>, k: u64, n: nat)
    requires
        m.dom().finite(),
    ensures
        map_sum(bump(m, k, n)) == map_sum(m) + n,
{
    broadcast use vstd::set::group_set_axioms;

    let m2 = bump(m, k, n);
    assert(m2.dom() =~= m.dom().insert(k));
    assert(m2.dom().contains(k));
    lemma_map_sum_remove(m2, k);
    if m.dom().contains(k) {
        lemma_map_sum_remove(m, k);
        assert(m2.remove(k) =~= m.remove(k));
    } else {
        assert(m2.remove(k) =~= m);
    }
}

/// No single value of a finite mapping exceeds the sum of all values.
pub proof fn lemma_map_sum_le(m: Map<u64, nat>, k: u64)
    requires
        m.dom().finite(),
        m.dom().contains(k),
    ensures
        m[k] <= map_sum(m),
{
    lemma_map_sum_remove(m, k);
}

/// Scanning keeps the mapping finite, and the bytes it has counted —
/// the sum of the mapping plus the pending block — grow by exactly the
/// content's length.
proof fn lemma_scan_sum(content: Seq<u8>, bs: nat, block: Seq<u8>, acc: Map<u64, nat>)
    requires
        acc.dom().finite(),
    ensures
        scan_counts(content, bs, block, acc).dom().finite(),
        map_sum(finish_counts(scan_block(content, bs, block), scan_counts(content, bs, block, acc)))
            == map_sum(acc) + block.len() + content.len(),
    decreases content.len(),
{
    broadcast use vstd::set::group_set_axioms;

    if content.len() == 0 {
        if block.len() > 0 {
            lemma_map_sum_bump(acc, hash_bytes(block), block.len());
        }
    } else {
        let nb = block.push(content[0]);
        if content[0] == NEWLINE || nb.len() == bs {
            let acc2 = bump(acc, hash_bytes(nb), nb.len());
            assert(acc2.dom() =~= acc.dom().insert(hash_bytes(nb)));
            lemma_map_sum_bump(acc, hash_bytes(nb), nb.len());
            lemma_scan_sum(content.drop_first(), bs, Seq::empty(), acc2);
        } else {
            lemma_scan_sum(content.drop_first(), bs, nb, acc);
        }
    }
}

/// Conservation law: the values of the fingerprint mapping sum to the
/// total byte length of the content.
pub proof fn lemma_count_conservation(content: Seq<u8>, bs: nat)
    ensures
        map_sum(block_counts_of(content, bs)) == content.len(),
{
    lemma_map_sum_empty();
    lemma_scan_sum(content, bs, Seq::empty(), Map::empty());
}

/// Chunk-boundary invariance: the fingerprint depends only on the
/// concatenated bytes, not on how they were split into chunks.
pub proof fn lemma_chunking_invariance(chunks1: Seq<Seq<u8>>, chunks2: Seq<Seq<u8>>, bs: nat)
    requires
        chunks1.flatten() == chunks2.flatten(),
    ensures
        block_counts_of(chunks1.flatten(), bs) == block_counts_of(chunks2.flatten(), bs),
{
}

/// Empty content yields an empty mapping.
pub proof fn lemma_count_empty(bs: nat)
    ensures
        block_counts_of(Seq::empty(), bs) == Map::<u64, nat>::empty(),
{
}

/// Fingerprints one blob's content, given as an ordered list of byte
/// chunks forming one logical stream: scans the concatenation, ends a
/// block at each newline and whenever it reaches `block_size` bytes,
/// and records each block's byte length under its hash; a trailing
/// partial block is counted exactly like a normal block.
#[verifier::loop_isolation(false)]
pub fn count_blocks(chunks: &Vec<Vec<u8>>, block_size: usize) -> (r: BlockCounts)
    requires
        chunks_view(chunks@).flatten().len() <= usize::MAX,
    ensures
        r.wf(),
        r@ == block_counts_of(chunks_view(chunks@).flatten(), block_size as nat),
{
    let ghost pieces = chunks_view(chunks@);
    let ghost full = pieces.flatten();
    let ghost bsn = block_size as nat;
    let mut counts = BlockCounts::new();
    let mut block: Vec<u8> = Vec::new();
    proof {
        lemma_map_sum_empty();
        assert(pieces.skip(0) =~= pieces);
    }
    let mut ci: usize = 0;
    while ci < chunks.len()
        invariant
            ci <= pieces.len(),
            counts.wf(),
            counts@.dom().finite(),
            scan_block(pieces.skip(ci as int).flatten(), bsn, block@) == scan_block(
                full,
                bsn,
                Seq::empty(),
            ),
            scan_counts(pieces.skip(ci as int).flatten(), bsn, block@, counts@) == scan_counts(
                full,
                bsn,
                Seq::empty(),
                Map::empty(),
            ),
            map_sum(counts@) + block@.len() + pieces.skip(ci as int).flatten().len() == full.len(),
        decreases pieces.len() - ci,
    {
        let chunk = &chunks[ci];
        let ghost tail = pieces.skip(ci as int + 1).flatten();
        proof {
            assert(pieces.skip(ci as int).drop_first() =~= pieces.skip(ci as int + 1));
            assert(pieces.skip(ci as int).flatten() == pieces[ci as int] + tail);
            assert(pieces[ci as int] == chunk@);
            assert(chunk@.skip(0) =~= chunk@);
            assert(chunk@.skip(0) + tail =~= pieces.skip(ci as int).flatten());
        }
        let mut bi: usize = 0;
        while bi < chunk.len()
            invariant
                bi <= chunk@.len(),
                counts.wf(),
                counts@.dom().finite(),
                scan_block(chunk@.skip(bi as int) + tail, bsn, block@) == scan_block(
                    full,
                    bsn,
                    Seq::empty(),
                ),
                scan_counts(chunk@.skip(bi as int) + tail, bsn, block@, counts@) == scan_counts(
                    full,
                    bsn,
                    Seq::empty(),
                    Map::empty(),
                ),
                map_sum(counts@) + block@.len() + (chunk@.skip(bi as int) + tail).len()
                    == full.len(),
            decreases chunk@.len() - bi,
        {
            let ghost rest = chunk@.skip(bi as int) + tail;
            proof {
                assert(rest[0] == chunk@[bi as int]);
                assert(rest.drop_first() =~= chunk@.skip(bi as int + 1) + tail);
            }
            let c = chunk[bi];
            block.push(c);
            let ghost nb = block@;
            if c == NEWLINE || block.len() == block_size {
                let h = block_hash(&block);
                proof {
                    if counts@.dom().contains(h) {
                        lemma_map_sum_le(counts@, h);
                    }
                    lemma_map_sum_bump(counts@, h, nb.len());
                    assert(bump(counts@, h, nb.len() as nat).dom() =~= counts@.dom().insert(h));
                }
                let n = block.len();
                counts.add_hash(h, n);
                block.clear();
            }
            bi = bi + 1;
        }
        proof {
            assert(chunk@.skip(chunk@.len() as int) + tail =~= pieces.skip(ci as int + 1).flatten());
        }
        ci = ci + 1;
    }
    proof {
        assert(pieces.skip(pieces.len() as int).flatten() =~= Seq::<u8>::empty());
    }
    if block.len() > 0 {
        let h = block_hash(&block);
        proof {
            if counts@.dom().contains(h) {
                lemma_map_sum_le(counts@, h);
            }
        }
        let n = block.len();
        counts.add_hash(h, n);
    }
    counts
}

} // verus!
