//! The tree entry merger: the path-ordered outer join of the immediate
//! entries of two (possibly absent) trees under a common path prefix.

use vstd::prelude::*;
use crate::entry::{
    RawEntry, RawEntryView, TreeEntry, TreeEntryView, TreeEntryPair, TreeEntryPairView,
    clone_bytes, join_path, path_join,
};
use crate::order::{
    PathOrder, bytes_lt, entry_path_cmp, lemma_bytes_lt_transitive, lemma_bytes_lt_trichotomy,
};

verus! {

/// A pair carrying only a left entry: a deletion.
pub open spec fn left_only(e: TreeEntryView) -> TreeEntryPairView {
    TreeEntryPairView { left: Option::Some(e), right: Option::None }
}

/// A pair carrying only a right entry: an addition.
pub open spec fn right_only(e: TreeEntryView) -> TreeEntryPairView {
    TreeEntryPairView { left: Option::None, right: Option::Some(e) }
}

/// A pair carrying both entries: a match at one path.
pub open spec fn both_sides(e1: TreeEntryView, e2: TreeEntryView) -> TreeEntryPairView {
    TreeEntryPairView { left: Option::Some(e1), right: Option::Some(e2) }
}

/// The views of a sequence of entries.
pub open spec fn entry_seq_view(s: Seq<TreeEntry>) -> Seq<TreeEntryView> {
    s.map_values(|e: TreeEntry| e@)
}

/// The views of a sequence of pairs.
pub open spec fn pair_seq_view(s: Seq<TreeEntryPair>) -> Seq<TreeEntryPairView> {
    s.map_values(|p: TreeEntryPair| p@)
}

/// The views of a sequence of raw entries.
pub open spec fn raw_seq_view(s: Seq<RawEntry>) -> Seq<RawEntryView> {
    s.map_values(|e: RawEntry| e@)
}

/// The view of a possibly absent borrowed tree listing.
pub open spec fn tree_view(tree: Option<&Vec<RawEntry>>) -> Option<Seq<RawEntryView>> {
    match tree {
        Option::None => Option::None,
        Option::Some(v) => Option::Some(raw_seq_view(v@)),
    }
}

/// The full-path entry of the child `e` under `prefix`.
pub open spec fn entry_at(prefix: Seq<u8>, e: RawEntryView) -> TreeEntryView {
    TreeEntryView { path: join_path(prefix, e.name), mode: e.mode, oid: e.oid }
}

/// The full-path entries of a possibly absent tree under `prefix`:
/// empty for an absent tree, otherwise every listed child with its
/// slash-joined path, in listing order.
pub open spec fn full_entries(prefix: Seq<u8>, tree: Option<Seq<RawEntryView>>) -> Seq<
    TreeEntryView,
> {
    match tree {
        Option::None => Seq::empty(),
        Option::Some(s) => s.map_values(|e: RawEntryView| entry_at(prefix, e)),
    }
}

/// Every entry of `s`, paired with absence on the left.
pub open spec fn right_onlys(s: Seq<TreeEntryView>) -> Seq<TreeEntryPairView> {
    s.map_values(|e: TreeEntryView| right_only(e))
}

/// Every entry of `s`, paired with absence on the right.
pub open spec fn left_onlys(s: Seq<TreeEntryView>) -> Seq<TreeEntryPairView> {
    s.map_values(|e: TreeEntryView| left_only(e))
}

/// The two-way merge of two entry lists by byte-lexicographic path
/// order: equal heads pair up, otherwise the smaller head goes out
/// alone, and a leftover suffix goes out paired with absence.
pub open spec fn merge_spec(s1: Seq<TreeEntryView>, s2: Seq<TreeEntryView>) -> Seq<
    TreeEntryPairView,
>
    decreases s1.len() + s2.len(),
{
    if s1.len() == 0 {
        right_onlys(s2)
    } else if s2.len() == 0 {
        left_onlys(s1)
    } else if s1[0].path == s2[0].path {
        seq![both_sides(s1[0], s2[0])] + merge_spec(s1.drop_first(), s2.drop_first())
    } else if bytes_lt(s1[0].path, s2[0].path) {
        seq![left_only(s1[0])] + merge_spec(s1.drop_first(), s2)
    } else {
        seq![right_only(s2[0])] + merge_spec(s1, s2.drop_first())
    }
}

/// Lists the immediate entries of a possibly absent tree, each with its
/// full slash-joined path under `path`, preserving listing order; an
/// absent tree lists nothing.
#[verifier::loop_isolation(false)]
pub fn tree_entries(path: &Vec<u8>, tree: Option<&Vec<RawEntry>>) -> (r: Vec<TreeEntry>)
    ensures
        entry_seq_view(r@) == full_entries(path@, tree_view(tree)),
{
    let mut result: Vec<TreeEntry> = Vec::new();
    match tree {
        Option::None => {
            proof {
                assert(entry_seq_view(result@) =~= full_entries(path@, tree_view(tree)));
            }
        },
        Option::Some(entries) => {
            let mut i: usize = 0;
            while i < entries.len()
                invariant
                    i <= entries@.len(),
                    entry_seq_view(result@) =~= full_entries(path@, tree_view(tree)).take(i as int),
                decreases entries@.len() - i,
            {
                let e = &entries[i];
                let new_path = path_join(path, &e.name);
                result.push(TreeEntry { path: new_path, mode: e.mode, oid: clone_bytes(&e.oid) });
                proof {
                    assert(entry_seq_view(result@) =~= full_entries(path@, tree_view(tree)).take(
                        i as int + 1,
                    ));
                }
                i = i + 1;
            }
            proof {
                assert(full_entries(path@, tree_view(tree)).take(entries@.len() as int)
                    =~= full_entries(path@, tree_view(tree)));
            }
        },
    }
    result
}

/// Merges the immediate entries of two possibly absent trees under the
/// prefix `path` into the ordered sequence of pairs covering every
/// child of either tree: the two-way merge of the full-path listings.
#[verifier::loop_isolation(false)]
pub fn merge_entries(
    path: &Vec<u8>,
    tree1: Option<&Vec<RawEntry>>,
    tree2: Option<&Vec<RawEntry>>,
) -> (r: Vec<TreeEntryPair>)
    ensures
        pair_seq_view(r@) == merge_spec(
            full_entries(path@, tree_view(tree1)),
            full_entries(path@, tree_view(tree2)),
        ),
{
    let entries1 = tree_entries(path, tree1);
    let entries2 = tree_entries(path, tree2);
    let ghost ev1 = entry_seq_view(entries1@);
    let ghost ev2 = entry_seq_view(entries2@);
    let mut result: Vec<TreeEntryPair> = Vec::new();
    let mut i1: usize = 0;
    let mut i2: usize = 0;
    proof {
        assert(ev1.skip(0) =~= ev1);
        assert(ev2.skip(0) =~= ev2);
        assert(pair_seq_view(result@) + merge_spec(ev1, ev2) =~= merge_spec(ev1, ev2));
    }
    while i1 < entries1.len() && i2 < entries2.len()
        invariant
            i1 <= ev1.len(),
            i2 <= ev2.len(),
            pair_seq_view(result@) + merge_spec(ev1.skip(i1 as int), ev2.skip(i2 as int))
                == merge_spec(ev1, ev2),
        decreases ev1.len() - i1 + ev2.len() - i2,
    {
        let ghost r1 = ev1.skip(i1 as int);
        let ghost r2 = ev2.skip(i2 as int);
        let ghost emitted = pair_seq_view(result@);
        proof {
            assert(r1[0] == ev1[i1 as int]);
            assert(r1.drop_first() =~= ev1.skip(i1 as int + 1));
            assert(r2[0] == ev2[i2 as int]);
            assert(r2.drop_first() =~= ev2.skip(i2 as int + 1));
            assert(ev1[i1 as int] == entries1@[i1 as int]@);
            assert(ev2[i2 as int] == entries2@[i2 as int]@);
        }
        let e1 = &entries1[i1];
        let e2 = &entries2[i2];
        let cmp = entry_path_cmp(e1, e2);
        match cmp {
            PathOrder::Equal => {
                let pair = TreeEntryPair {
                    left: Option::Some(e1.duplicate()),
                    right: Option::Some(e2.duplicate()),
                };
                proof {
                    assert(pair@ == both_sides(r1[0], r2[0]));
                }
                result.push(pair);
                proof {
                    assert(pair_seq_view(result@) =~= emitted + seq![both_sides(r1[0], r2[0])]);
                    assert(merge_spec(r1, r2) == seq![both_sides(r1[0], r2[0])] + merge_spec(
                        r1.drop_first(),
                        r2.drop_first(),
                    ));
                    assert((emitted + seq![both_sides(r1[0], r2[0])]) + merge_spec(
                        r1.drop_first(),
                        r2.drop_first(),
                    ) =~= emitted + merge_spec(r1, r2));
                }
                i1 = i1 + 1;
                i2 = i2 + 1;
            },
            PathOrder::Less => {
                let pair = TreeEntryPair { left: Option::Some(e1.duplicate()), right: Option::None };
                proof {
                    assert(pair@ == left_only(r1[0]));
                }
                result.push(pair);
                proof {
                    assert(pair_seq_view(result@) =~= emitted + seq![left_only(r1[0])]);
                    assert(merge_spec(r1, r2) == seq![left_only(r1[0])] + merge_spec(
                        r1.drop_first(),
                        r2,
                    ));
                    assert((emitted + seq![left_only(r1[0])]) + merge_spec(r1.drop_first(), r2)
                        =~= emitted + merge_spec(r1, r2));
                }
                i1 = i1 + 1;
            },
            PathOrder::Greater => {
                let pair = TreeEntryPair { left: Option::None, right: Option::Some(e2.duplicate()) };
                proof {
                    assert(pair@ == right_only(r2[0]));
                }
                result.push(pair);
                proof {
                    assert(pair_seq_view(result@) =~= emitted + seq![right_only(r2[0])]);
                    assert(merge_spec(r1, r2) == seq![right_only(r2[0])] + merge_spec(
                        r1,
                        r2.drop_first(),
                    ));
                    assert((emitted + seq![right_only(r2[0])]) + merge_spec(r1, r2.drop_first())
                        =~= emitted + merge_spec(r1, r2));
                }
                i2 = i2 + 1;
            },
        }
    }
    while i1 < entries1.len()
        invariant
            i1 <= ev1.len(),
            i2 <= ev2.len(),
            i1 < ev1.len() ==> i2 == ev2.len(),
            pair_seq_view(result@) + merge_spec(ev1.skip(i1 as int), ev2.skip(i2 as int))
                == merge_spec(ev1, ev2),
        decreases ev1.len() - i1,
    {
        let ghost r1 = ev1.skip(i1 as int);
        let ghost r2 = ev2.skip(i2 as int);
        let ghost emitted = pair_seq_view(result@);
        proof {
            assert(r2 =~= Seq::<TreeEntryView>::empty());
            assert(r1[0] == ev1[i1 as int]);
            assert(r1.drop_first() =~= ev1.skip(i1 as int + 1));
            assert(ev1[i1 as int] == entries1@[i1 as int]@);
        }
        let e1 = &entries1[i1];
        let pair = TreeEntryPair { left: Option::Some(e1.duplicate()), right: Option::None };
        proof {
            assert(pair@ == left_only(r1[0]));
        }
        result.push(pair);
        proof {
            assert(pair_seq_view(result@) =~= emitted + seq![left_only(r1[0])]);
            assert(merge_spec(r1, r2) =~= seq![left_only(r1[0])] + merge_spec(r1.drop_first(), r2));
            assert((emitted + seq![left_only(r1[0])]) + merge_spec(r1.drop_first(), r2) =~= emitted
                + merge_spec(r1, r2));
        }
        i1 = i1 + 1;
    }
    while i2 < entries2.len()
        invariant
            i1 == ev1.len(),
            i2 <= ev2.len(),
            pair_seq_view(result@) + merge_spec(ev1.skip(i1 as int), ev2.skip(i2 as int))
                == merge_spec(ev1, ev2),
        decreases ev2.len() - i2,
    {
        let ghost r1 = ev1.skip(i1 as int);
        let ghost r2 = ev2.skip(i2 as int);
        let ghost emitted = pair_seq_view(result@);
        proof {
            assert(r1 =~= Seq::<TreeEntryView>::empty());
            assert(r2[0] == ev2[i2 as int]);
            assert(r2.drop_first() =~= ev2.skip(i2 as int + 1));
            assert(ev2[i2 as int] == entries2@[i2 as int]@);
        }
        let e2 = &entries2[i2];
        let pair = TreeEntryPair { left: Option::None, right: Option::Some(e2.duplicate()) };
        proof {
            assert(pair@ == right_only(r2[0]));
        }
        result.push(pair);
        proof {
            assert(pair_seq_view(result@) =~= emitted + seq![right_only(r2[0])]);
            assert(merge_spec(r1, r2) =~= seq![right_only(r2[0])] + merge_spec(r1, r2.drop_first()));
            assert((emitted + seq![right_only(r2[0])]) + merge_spec(r1, r2.drop_first()) =~= emitted
                + merge_spec(r1, r2));
        }
        i2 = i2 + 1;
    }
    proof {
        assert(ev1.skip(i1 as int) =~= Seq::<TreeEntryView>::empty());
        assert(ev2.skip(i2 as int) =~= Seq::<TreeEntryView>::empty());
        assert(pair_seq_view(result@) + merge_spec(ev1.skip(i1 as int), ev2.skip(i2 as int))
            =~= pair_seq_view(result@));
    }
    result
}

/// The left-side entries of a pair sequence, in order.
pub open spec fn lefts(ps: Seq<TreeEntryPairView>) -> Seq<TreeEntryView>
    decreases ps.len(),
{
    if ps.len() == 0 {
        Seq::empty()
    } else {
        (match ps[0].left {
            Option::Some(e) => seq![e],
            Option::None => Seq::empty(),
        }) + lefts(ps.drop_first())
    }
}

/// The right-side entries of a pair sequence, in order.
pub open spec fn rights(ps: Seq<TreeEntryPairView>) -> Seq<TreeEntryView>
    decreases ps.len(),
{
    if ps.len() == 0 {
        Seq::empty()
    } else {
        (match ps[0].right {
            Option::Some(e) => seq![e],
            Option::None => Seq::empty(),
        }) + rights(ps.drop_first())
    }
}

proof fn lemma_sides_right_onlys(s: Seq<TreeEntryView>)
    ensures
        lefts(right_onlys(s)) =~= Seq::<TreeEntryView>::empty(),
        rights(right_onlys(s)) =~= s,
    decreases s.len(),
{
    let ps = right_onlys(s);
    if s.len() > 0 {
        assert(ps[0] == right_only(s[0]));
        assert(ps.drop_first() =~= right_onlys(s.drop_first()));
        lemma_sides_right_onlys(s.drop_first());
        assert(rights(ps) =~= seq![s[0]] + s.drop_first());
    }
}

proof fn lemma_sides_left_onlys(s: Seq<TreeEntryView>)
    ensures
        lefts(left_onlys(s)) =~= s,
        rights(left_onlys(s)) =~= Seq::<TreeEntryView>::empty(),
    decreases s.len(),
{
    let ps = left_onlys(s);
    if s.len() > 0 {
        assert(ps[0] == left_only(s[0]));
        assert(ps.drop_first() =~= left_onlys(s.drop_first()));
        lemma_sides_left_onlys(s.drop_first());
        assert(lefts(ps) =~= seq![s[0]] + s.drop_first());
    }
}

/// Completeness of the outer join: the left sides of the merge, in
/// order, are exactly `s1`, and the right sides exactly `s2` — every
/// entry of either list appears in exactly one output pair, and nothing
/// else does.
pub proof fn lemma_merge_complete(s1: Seq<TreeEntryView>, s2: Seq<TreeEntryView>)
    ensures
        lefts(merge_spec(s1, s2)) == s1,
        rights(merge_spec(s1, s2)) == s2,
    decreases s1.len() + s2.len(),
{
    let ps = merge_spec(s1, s2);
    if s1.len() == 0 {
        lemma_sides_right_onlys(s2);
        assert(lefts(ps) =~= s1);
    } else if s2.len() == 0 {
        lemma_sides_left_onlys(s1);
        assert(rights(ps) =~= s2);
    } else if s1[0].path == s2[0].path {
        let m = merge_spec(s1.drop_first(), s2.drop_first());
        lemma_merge_complete(s1.drop_first(), s2.drop_first());
        assert(ps[0] == both_sides(s1[0], s2[0]));
        assert(ps.drop_first() =~= m);
        assert(lefts(ps) =~= seq![s1[0]] + s1.drop_first());
        assert(rights(ps) =~= seq![s2[0]] + s2.drop_first());
        assert(lefts(ps) =~= s1);
        assert(rights(ps) =~= s2);
    } else if bytes_lt(s1[0].path, s2[0].path) {
        let m = merge_spec(s1.drop_first(), s2);
        lemma_merge_complete(s1.drop_first(), s2);
        assert(ps[0] == left_only(s1[0]));
        assert(ps.drop_first() =~= m);
        assert(lefts(ps) =~= seq![s1[0]] + s1.drop_first());
        assert(lefts(ps) =~= s1);
        assert(rights(ps) =~= s2);
    } else {
        let m = merge_spec(s1, s2.drop_first());
        lemma_merge_complete(s1, s2.drop_first());
        assert(ps[0] == right_only(s2[0]));
        assert(ps.drop_first() =~= m);
        assert(rights(ps) =~= seq![s2[0]] + s2.drop_first());
        assert(rights(ps) =~= s2);
        assert(lefts(ps) =~= s1);
    }
}

/// Every pair the merge emits carries at least one side.
pub proof fn lemma_merge_present(s1: Seq<TreeEntryView>, s2: Seq<TreeEntryView>)
    ensures
        forall|k: int|
            0 <= k < merge_spec(s1, s2).len() ==> (#[trigger] merge_spec(s1, s2)[k]).is_present(),
    decreases s1.len() + s2.len(),
{
    let ps = merge_spec(s1, s2);
    if s1.len() == 0 {
        assert forall|k: int| 0 <= k < ps.len() implies (#[trigger] ps[k]).is_present() by {
            assert(ps[k] == right_only(s2[k]));
        }
    } else if s2.len() == 0 {
        assert forall|k: int| 0 <= k < ps.len() implies (#[trigger] ps[k]).is_present() by {
            assert(ps[k] == left_only(s1[k]));
        }
    } else {
        let m = if s1[0].path == s2[0].path {
            merge_spec(s1.drop_first(), s2.drop_first())
        } else if bytes_lt(s1[0].path, s2[0].path) {
            merge_spec(s1.drop_first(), s2)
        } else {
            merge_spec(s1, s2.drop_first())
        };
        if s1[0].path == s2[0].path {
            lemma_merge_present(s1.drop_first(), s2.drop_first());
        } else if bytes_lt(s1[0].path, s2[0].path) {
            lemma_merge_present(s1.drop_first(), s2);
        } else {
            lemma_merge_present(s1, s2.drop_first());
        }
        assert forall|k: int| 0 <= k < ps.len() implies (#[trigger] ps[k]).is_present() by {
            if k > 0 {
                assert(ps[k] == m[k - 1]);
            }
        }
    }
}

/// The path a pair stands at: the present side's path (both sides agree
/// when both are present).
pub open spec fn pair_path(p: TreeEntryPairView) -> Seq<u8> {
    match p.left {
        Option::Some(e) => e.path,
        Option::None => match p.right {
            Option::Some(e) => e.path,
            Option::None => Seq::empty(),
        },
    }
}

/// Strictly ascending byte-lexicographic path order of an entry list.
pub open spec fn strictly_sorted(s: Seq<TreeEntryView>) -> bool {
    forall|i: int, j: int| 0 <= i < j < s.len() ==> bytes_lt(s[i].path, s[j].path)
}

/// Strictly ascending byte-lexicographic order of a pair sequence by
/// the present-side path.
pub open spec fn strictly_sorted_pairs(ps: Seq<TreeEntryPairView>) -> bool {
    forall|i: int, j: int| 0 <= i < j < ps.len() ==> bytes_lt(pair_path(ps[i]), pair_path(ps[j]))
}

proof fn lemma_merge_lower_bound(s1: Seq<TreeEntryView>, s2: Seq<TreeEntryView>, lo: Seq<u8>)
    requires
        forall|i: int| 0 <= i < s1.len() ==> bytes_lt(lo, (#[trigger] s1[i]).path),
        forall|i: int| 0 <= i < s2.len() ==> bytes_lt(lo, (#[trigger] s2[i]).path),
    ensures
        forall|k: int|
            0 <= k < merge_spec(s1, s2).len() ==> bytes_lt(
                lo,
                pair_path(#[trigger] merge_spec(s1, s2)[k]),
            ),
    decreases s1.len() + s2.len(),
{
    let ps = merge_spec(s1, s2);
    if s1.len() == 0 {
        assert forall|k: int| 0 <= k < ps.len() implies bytes_lt(lo, pair_path(#[trigger] ps[k]))
        by {
            assert(ps[k] == right_only(s2[k]));
        }
    } else if s2.len() == 0 {
        assert forall|k: int| 0 <= k < ps.len() implies bytes_lt(lo, pair_path(#[trigger] ps[k]))
        by {
            assert(ps[k] == left_only(s1[k]));
        }
    } else {
        let t1 = s1.drop_first();
        let t2 = s2.drop_first();
        if s1[0].path == s2[0].path {
            lemma_merge_lower_bound(t1, t2, lo);
            assert forall|k: int| 0 <= k < ps.len() implies bytes_lt(
                lo,
                pair_path(#[trigger] ps[k]),
            ) by {
                if k == 0 {
                    assert(ps[0] == both_sides(s1[0], s2[0]));
                } else {
                    assert(ps[k] == merge_spec(t1, t2)[k - 1]);
                }
            }
        } else if bytes_lt(s1[0].path, s2[0].path) {
            lemma_merge_lower_bound(t1, s2, lo);
            assert forall|k: int| 0 <= k < ps.len() implies bytes_lt(
                lo,
                pair_path(#[trigger] ps[k]),
            ) by {
                if k == 0 {
                    assert(ps[0] == left_only(s1[0]));
                } else {
                    assert(ps[k] == merge_spec(t1, s2)[k - 1]);
                }
            }
        } else {
            lemma_merge_lower_bound(s1, t2, lo);
            assert forall|k: int| 0 <= k < ps.len() implies bytes_lt(
                lo,
                pair_path(#[trigger] ps[k]),
            ) by {
                if k == 0 {
                    assert(ps[0] == right_only(s2[0]));
                } else {
                    assert(ps[k] == merge_spec(s1, t2)[k - 1]);
                }
            }
        }
    }
}

/// Ordering of the outer join: on listings in strictly ascending path
/// order, the merge is strictly ascending by the present-side path.
pub proof fn lemma_merge_sorted(s1: Seq<TreeEntryView>, s2: Seq<TreeEntryView>)
    requires
        strictly_sorted(s1),
        strictly_sorted(s2),
    ensures
        strictly_sorted_pairs(merge_spec(s1, s2)),
    decreases s1.len() + s2.len(),
{
    let ps = merge_spec(s1, s2);
    if s1.len() == 0 {
        assert forall|i: int, j: int| 0 <= i < j < ps.len() implies bytes_lt(
            pair_path(ps[i]),
            pair_path(ps[j]),
        ) by {
            assert(ps[i] == right_only(s2[i]));
            assert(ps[j] == right_only(s2[j]));
        }
    } else if s2.len() == 0 {
        assert forall|i: int, j: int| 0 <= i < j < ps.len() implies bytes_lt(
            pair_path(ps[i]),
            pair_path(ps[j]),
        ) by {
            assert(ps[i] == left_only(s1[i]));
            assert(ps[j] == left_only(s1[j]));
        }
    } else {
        let t1 = s1.drop_first();
        let t2 = s2.drop_first();
        assert(strictly_sorted(t1)) by {
            assert(forall|i: int| 0 <= i < t1.len() ==> t1[i] == s1[i + 1]);
        }
        assert(strictly_sorted(t2)) by {
            assert(forall|i: int| 0 <= i < t2.len() ==> t2[i] == s2[i + 1]);
        }
        if s1[0].path == s2[0].path {
            let lo = s1[0].path;
            let m = merge_spec(t1, t2);
            lemma_merge_sorted(t1, t2);
            assert(forall|i: int| 0 <= i < t1.len() ==> bytes_lt(lo, (#[trigger] t1[i]).path));
            assert(forall|i: int| 0 <= i < t2.len() ==> bytes_lt(lo, (#[trigger] t2[i]).path));
            lemma_merge_lower_bound(t1, t2, lo);
            assert forall|i: int, j: int| 0 <= i < j < ps.len() implies bytes_lt(
                pair_path(ps[i]),
                pair_path(ps[j]),
            ) by {
                assert(ps[0] == both_sides(s1[0], s2[0]));
                assert(ps[j] == m[j - 1]);
                if i > 0 {
                    assert(ps[i] == m[i - 1]);
                }
            }
        } else if bytes_lt(s1[0].path, s2[0].path) {
            let lo = s1[0].path;
            let m = merge_spec(t1, s2);
            lemma_merge_sorted(t1, s2);
            assert(forall|i: int| 0 <= i < t1.len() ==> bytes_lt(lo, (#[trigger] t1[i]).path));
            assert forall|i: int| 0 <= i < s2.len() implies bytes_lt(lo, (#[trigger] s2[i]).path)
            by {
                if i > 0 {
                    lemma_bytes_lt_transitive(lo, s2[0].path, s2[i].path);
                }
            }
            lemma_merge_lower_bound(t1, s2, lo);
            assert forall|i: int, j: int| 0 <= i < j < ps.len() implies bytes_lt(
                pair_path(ps[i]),
                pair_path(ps[j]),
            ) by {
                assert(ps[0] == left_only(s1[0]));
                assert(ps[j] == m[j - 1]);
                if i > 0 {
                    assert(ps[i] == m[i - 1]);
                }
            }
        } else {
            lemma_bytes_lt_trichotomy(s1[0].path, s2[0].path);
            let lo = s2[0].path;
            let m = merge_spec(s1, t2);
            lemma_merge_sorted(s1, t2);
            assert(forall|i: int| 0 <= i < t2.len() ==> bytes_lt(lo, (#[trigger] t2[i]).path));
            assert forall|i: int| 0 <= i < s1.len() implies bytes_lt(lo, (#[trigger] s1[i]).path)
            by {
                if i > 0 {
                    lemma_bytes_lt_transitive(lo, s1[0].path, s1[i].path);
                }
            }
            lemma_merge_lower_bound(s1, t2, lo);
            assert forall|i: int, j: int| 0 <= i < j < ps.len() implies bytes_lt(
                pair_path(ps[i]),
                pair_path(ps[j]),
            ) by {
                assert(ps[0] == right_only(s2[0]));
                assert(ps[j] == m[j - 1]);
                if i > 0 {
                    assert(ps[i] == m[i - 1]);
                }
            }
        }
    }
}

/// Merging an absent left tree with a tree listing `entries` pairs
/// every child with absence, in listing order, at its slash-joined path
/// under `prefix`.
pub proof fn lemma_merge_left_absent(prefix: Seq<u8>, entries: Seq<RawEntryView>)
    ensures
        merge_spec(
            full_entries(prefix, Option::None),
            full_entries(prefix, Option::Some(entries)),
        ) =~= entries.map_values(|e: RawEntryView| right_only(entry_at(prefix, e))),
{
    let s = full_entries(prefix, Option::Some(entries));
    assert(merge_spec(Seq::empty(), s) == right_onlys(s));
}

/// When a pair carries both entries, the merge paired them because
/// their full paths are equal.
pub proof fn lemma_merge_matched_paths(s1: Seq<TreeEntryView>, s2: Seq<TreeEntryView>)
    ensures
        forall|k: int|
            0 <= k < merge_spec(s1, s2).len() && (#[trigger] merge_spec(s1, s2)[k]).left is Some
                && merge_spec(s1, s2)[k].right is Some ==> merge_spec(s1, s2)[k].left->0.path
                == merge_spec(s1, s2)[k].right->0.path,
    decreases s1.len() + s2.len(),
{
    let ps = merge_spec(s1, s2);
    if s1.len() == 0 {
        assert forall|k: int| 0 <= k < ps.len() implies !((#[trigger] ps[k]).left is Some) by {
            assert(ps[k] == right_only(s2[k]));
        }
    } else if s2.len() == 0 {
        assert forall|k: int| 0 <= k < ps.len() implies !((#[trigger] ps[k]).right is Some) by {
            assert(ps[k] == left_only(s1[k]));
        }
    } else {
        let m = if s1[0].path == s2[0].path {
            merge_spec(s1.drop_first(), s2.drop_first())
        } else if bytes_lt(s1[0].path, s2[0].path) {
            merge_spec(s1.drop_first(), s2)
        } else {
            merge_spec(s1, s2.drop_first())
        };
        if s1[0].path == s2[0].path {
            lemma_merge_matched_paths(s1.drop_first(), s2.drop_first());
        } else if bytes_lt(s1[0].path, s2[0].path) {
            lemma_merge_matched_paths(s1.drop_first(), s2);
        } else {
            lemma_merge_matched_paths(s1, s2.drop_first());
        }
        assert forall|k: int|
            0 <= k < ps.len() && (#[trigger] ps[k]).left is Some && ps[k].right is Some implies ps[k].left->0.path == ps[k].right->0.path by {
            if k > 0 {
                assert(ps[k] == m[k - 1]);
            }
        }
    }
}

/// Merging two absent trees yields no pairs.
pub proof fn lemma_merge_both_absent(prefix: Seq<u8>)
    ensures
        merge_spec(full_entries(prefix, Option::None), full_entries(prefix, Option::None))
            =~= Seq::<TreeEntryPairView>::empty(),
{
}

} // verus!
