//! Byte-lexicographic ordering of paths: the strict order the merger's
//! sortedness guarantees are stated over, and the executable three-way
//! comparison used while merging.

use vstd::prelude::*;
use crate::entry::TreeEntry;

verus! {

/// Strict byte-lexicographic order: `a` sorts before `b`.
pub open spec fn bytes_lt(a: Seq<u8>, b: Seq<u8>) -> bool
    decreases a.len(),
{
    if b.len() == 0 {
        false
    } else if a.len() == 0 {
        true
    } else if a[0] < b[0] {
        true
    } else if a[0] > b[0] {
        false
    } else {
        bytes_lt(a.drop_first(), b.drop_first())
    }
}

/// The three outcomes of a path comparison.
#[derive(Clone, Copy, Debug, PartialEq, Eq, Structural)]
pub enum PathOrder {
    Less,
    Equal,
    Greater,
}

/// The three-way byte-lexicographic comparison of `a` and `b`.
pub open spec fn path_order(a: Seq<u8>, b: Seq<u8>) -> PathOrder {
    if a == b {
        PathOrder::Equal
    } else if bytes_lt(a, b) {
        PathOrder::Less
    } else {
        PathOrder::Greater
    }
}

/// Of `a == b`, `bytes_lt(a, b)` and `bytes_lt(b, a)`, exactly one holds.
pub proof fn lemma_bytes_lt_trichotomy(a: Seq<u8>, b: Seq<u8>)
    ensures
        a == b || bytes_lt(a, b) || bytes_lt(b, a),
        bytes_lt(a, b) ==> a != b,
        bytes_lt(a, b) ==> !bytes_lt(b, a),
    decreases a.len(),
{
    if a.len() == 0 || b.len() == 0 {
        if a.len() == 0 && b.len() == 0 {
            assert(a =~= b);
        }
    } else {
        lemma_bytes_lt_trichotomy(a.drop_first(), b.drop_first());
        if a[0] == b[0] && a.drop_first() == b.drop_first() {
            assert forall|j: int| 0 <= j < a.len() implies a[j] == b[j] by {
                if j > 0 {
                    assert(a.drop_first()[j - 1] == b.drop_first()[j - 1]);
                }
            }
            assert(a =~= b);
        }
        if a == b {
            assert(a.drop_first() =~= b.drop_first());
        }
    }
}

/// Byte-lexicographic order is transitive.
pub proof fn lemma_bytes_lt_transitive(a: Seq<u8>, b: Seq<u8>, c: Seq<u8>)
    requires
        bytes_lt(a, b),
        bytes_lt(b, c),
    ensures
        bytes_lt(a, c),
    decreases a.len() + b.len() + c.len(),
{
    if a.len() == 0 || b.len() == 0 || c.len() == 0 {
    } else {
        if a[0] == b[0] && b[0] == c[0] {
            lemma_bytes_lt_transitive(a.drop_first(), b.drop_first(), c.drop_first());
        }
    }
}

/// Stripping an equal prefix from both sides leaves the order unchanged.
pub proof fn lemma_bytes_lt_common_prefix(a: Seq<u8>, b: Seq<u8>, i: int)
    requires
        0 <= i <= a.len(),
        i <= b.len(),
        forall|j: int| 0 <= j < i ==> a[j] == b[j],
    ensures
        bytes_lt(a, b) == bytes_lt(a.skip(i), b.skip(i)),
    decreases i,
{
    if i > 0 {
        assert(a.drop_first().skip(i - 1) =~= a.skip(i));
        assert(b.drop_first().skip(i - 1) =~= b.skip(i));
        lemma_bytes_lt_common_prefix(a.drop_first(), b.drop_first(), i - 1);
    } else {
        assert(a.skip(0) =~= a);
        assert(b.skip(0) =~= b);
    }
}

/// Compares two byte strings in byte-lexicographic order.
pub fn bytes_cmp(a: &Vec<u8>, b: &Vec<u8>) -> (r: PathOrder)
    ensures
        r == path_order(a@, b@),
{
    let n: usize = if a.len() < b.len() {
        a.len()
    } else {
        b.len()
    };
    let mut i: usize = 0;
    while i < n
        invariant
            i <= n,
            n == if a@.len() < b@.len() {
                a@.len() as int
            } else {
                b@.len() as int
            },
            forall|j: int| 0 <= j < i ==> a@[j] == b@[j],
        decreases n - i,
    {
        if a[i] < b[i] {
            proof {
                lemma_bytes_lt_common_prefix(a@, b@, i as int);
                assert(bytes_lt(a@.skip(i as int), b@.skip(i as int)));
                assert(a@[i as int] != b@[i as int]);
            }
            return PathOrder::Less;
        }
        if a[i] > b[i] {
            proof {
                lemma_bytes_lt_common_prefix(b@, a@, i as int);
                assert(bytes_lt(b@.skip(i as int), a@.skip(i as int)));
                lemma_bytes_lt_trichotomy(a@, b@);
                assert(a@[i as int] != b@[i as int]);
            }
            return PathOrder::Greater;
        }
        i = i + 1;
    }
    if a.len() == b.len() {
        proof {
            assert(a@ =~= b@);
        }
        PathOrder::Equal
    } else if a.len() < b.len() {
        proof {
            lemma_bytes_lt_common_prefix(a@, b@, n as int);
            assert(a@.skip(n as int).len() == 0);
            assert(b@.skip(n as int).len() > 0);
            assert(a@.len() != b@.len());
        }
        PathOrder::Less
    } else {
        proof {
            lemma_bytes_lt_common_prefix(b@, a@, n as int);
            assert(b@.skip(n as int).len() == 0);
            assert(a@.skip(n as int).len() > 0);
            lemma_bytes_lt_trichotomy(a@, b@);
            assert(a@.len() != b@.len());
        }
        PathOrder::Greater
    }
}

/// Compares two tree entries by their full path, byte-lexicographically.
pub fn entry_path_cmp(entry1: &TreeEntry, entry2: &TreeEntry) -> (r: PathOrder)
    ensures
        r == path_order(entry1@.path, entry2@.path),
{
    bytes_cmp(&entry1.path, &entry2.path)
}

} // verus!
