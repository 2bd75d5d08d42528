//! Rank queries over a list of distances.
//!
//! The distances are bit patterns of binary32 numbers, one per node, at the
//! node's index. The nearest entry is found by a scan; the entry at a given
//! rank is found by partial selection, which the standard library does.
use vstd::prelude::*;
use crate::order::{
    is_distance, lemma_nearer_is_total_on_distances, nearer, nearer_than, total_cmp, total_key,
};
use crate::types::NodeId;

verus! {

/// The distances paired with their indices, in index order.
pub open spec fn entries_of(dists: Seq<u32>) -> Seq<(NodeId, u32)> {
    Seq::new(dists.len(), |i: int| (i as usize, dists[i]))
}

/// What `select_nth_unstable_by` leaves in a slice that held `entries`, asked
/// for `index` and comparing the distances in the total order.
pub uninterp spec fn selected(entries: Seq<(NodeId, u32)>, index: usize) -> Seq<(NodeId, u32)>;

/// `after` holds the entries of `before` in some order, none before `index`
/// above the one at `index` in the total order and none after it below.
pub open spec fn placed(
    before: Seq<(NodeId, u32)>,
    after: Seq<(NodeId, u32)>,
    index: usize,
) -> bool {
    &&& after.len() == before.len()
    &&& after.to_multiset() == before.to_multiset()
    &&& forall|i: int|
        0 <= i < index && i < after.len() ==> total_key(#[trigger] after[i].1) <= total_key(
            after[index as int].1,
        )
    &&& forall|i: int|
        index < i < after.len() ==> total_key(#[trigger] after[i].1) >= total_key(
            after[index as int].1,
        )
}

/// Calls `select_nth_unstable_by` of the standard library on the entries,
/// with [`total_cmp`] on the distances as the comparison. Taken on trust, as
/// the library documents it: the slice is reordered so that the entry at
/// `index` is where a sort would put it, with nothing greater before it and
/// nothing smaller after it ([`placed`]); with a comparison that is a total
/// order, as this one is, the call panics only when `index` is not below the
/// length. Also taken on trust: the same entries and index give the same
/// order ([`selected`]).
#[verifier::external_body]
fn select_nth(entries: &mut Vec<(NodeId, u32)>, index: usize)
    requires
        index < old(entries).len(),
    ensures
        final(entries)@ == selected(old(entries)@, index),
        placed(old(entries)@, final(entries)@, index),
{
    entries.select_nth_unstable_by(index, |a, b| total_cmp(a.1, b.1));
}

/// The rank that a query for rank `k` among `n` entries reads: `k` itself, or
/// the last rank when `k` is beyond it.
pub open spec fn clamped_rank(n: nat, k: usize) -> usize
    recommends
        n > 0,
{
    if k >= n {
        (n - 1) as usize
    } else {
        k
    }
}

/// The entry at rank `k` (0 is nearest) of the distances, `k` clamped to the
/// last rank; nothing when there are no distances.
pub open spec fn kth_nearest(dists: Seq<u32>, k: usize) -> Option<(NodeId, u32)> {
    if dists.len() == 0 {
        None
    } else {
        let rank = clamped_rank(dists.len(), k);
        Some(selected(entries_of(dists), rank)[rank as int])
    }
}

/// How many of the distances are below `d` in the total order.
pub open spec fn count_below(dists: Seq<u32>, d: u32) -> nat
    decreases dists.len(),
{
    if dists.len() == 0 {
        0
    } else {
        count_below(dists.drop_last(), d) + if total_key(dists.last()) < total_key(d) {
            1nat
        } else {
            0nat
        }
    }
}

/// How many of the distances are `d` or below it in the total order.
pub open spec fn count_at_most(dists: Seq<u32>, d: u32) -> nat
    decreases dists.len(),
{
    if dists.len() == 0 {
        0
    } else {
        count_at_most(dists.drop_last(), d) + if total_key(dists.last()) <= total_key(d) {
            1nat
        } else {
            0nat
        }
    }
}

/// `entry` stands at rank `rank` of the distances: it is one of them, at most
/// `rank` distances are below its own, and more than `rank` are not above it.
pub open spec fn has_rank(dists: Seq<u32>, rank: usize, entry: (NodeId, u32)) -> bool {
    &&& entry.0 < dists.len()
    &&& entry.1 == dists[entry.0 as int]
    &&& count_below(dists, entry.1) <= rank < count_at_most(dists, entry.1)
}

/// `entry` is the first among the nearest: no distance is nearer than its own,
/// and its own is nearer than every one before it.
pub open spec fn is_nearest(dists: Seq<u32>, entry: (NodeId, u32)) -> bool {
    &&& entry.0 < dists.len()
    &&& entry.1 == dists[entry.0 as int]
    &&& forall|j: int| 0 <= j < dists.len() ==> !nearer(#[trigger] dists[j], entry.1)
    &&& forall|j: int| 0 <= j < entry.0 ==> nearer(entry.1, #[trigger] dists[j])
}

/// Finds the nearest entry by one scan; of several equally near, the first.
/// A NaN counts as farther than every number.
pub fn nearest_in(dists: &Vec<u32>) -> (r: Option<(NodeId, u32)>)
    ensures
        r is None <==> dists.len() == 0,
        r matches Some(entry) ==> is_nearest(dists@, entry),
{
    if dists.len() == 0 {
        return None;
    }
    let mut best: usize = 0;
    let mut best_d: u32 = dists[0];
    let mut i: usize = 1;
    while i < dists.len()
        invariant
            1 <= i <= dists.len(),
            best < i,
            best_d == dists[best as int],
            forall|j: int| 0 <= j < i ==> !nearer(#[trigger] dists[j], best_d),
            forall|j: int| 0 <= j < best ==> nearer(best_d, #[trigger] dists[j]),
        decreases dists.len() - i,
    {
        let d: u32 = dists[i];
        if nearer_than(d, best_d) {
            best = i;
            best_d = d;
        }
        i += 1;
    }
    Some((best, best_d))
}

/// Finds the entry at rank `k` by partial selection. A rank beyond the last
/// reads the last, the farthest entry.
pub fn kth_nearest_in(dists: &Vec<u32>, k: usize) -> (r: Option<(NodeId, u32)>)
    ensures
        r is None <==> dists.len() == 0,
        r == kth_nearest(dists@, k),
        r matches Some(entry) ==> has_rank(dists@, clamped_rank(dists@.len(), k), entry),
{
    let n: usize = dists.len();
    if n == 0 {
        return None;
    }
    let mut entries: Vec<(NodeId, u32)> = Vec::with_capacity(n);
    let mut i: usize = 0;
    while i < n
        invariant
            n == dists.len(),
            i <= n,
            entries@ == entries_of(dists@).subrange(0, i as int),
        decreases n - i,
    {
        entries.push((i, dists[i]));
        proof {
            assert(entries@ =~= entries_of(dists@).subrange(0, i + 1));
        }
        i += 1;
    }
    proof {
        assert(entries@ =~= entries_of(dists@));
    }
    let rank: usize = if k >= n { n - 1 } else { k };
    select_nth(&mut entries, rank);
    proof {
        lemma_placed_has_rank(dists@, entries@, rank);
    }
    Some(entries[rank])
}

/// No more distances are at or below `a` than are below a greater `b`.
proof fn lemma_counts_ascend(dists: Seq<u32>, a: u32, b: u32)
    requires
        total_key(a) < total_key(b),
    ensures
        count_at_most(dists, a) <= count_below(dists, b),
    decreases dists.len(),
{
    if dists.len() > 0 {
        lemma_counts_ascend(dists.drop_last(), a, b);
    }
}

/// The rank fixes the distance: two entries that stand at the same rank of
/// the same distances have the same distance. They need not be the same
/// entry, since several nodes may lie equally far.
pub proof fn lemma_rank_fixes_distance(
    dists: Seq<u32>,
    rank: usize,
    first: (NodeId, u32),
    second: (NodeId, u32),
)
    requires
        has_rank(dists, rank, first),
        has_rank(dists, rank, second),
    ensures
        first.1 == second.1,
{
    if total_key(first.1) < total_key(second.1) {
        lemma_counts_ascend(dists, first.1, second.1);
    }
    if total_key(second.1) < total_key(first.1) {
        lemma_counts_ascend(dists, second.1, first.1);
    }
}

/// Nothing is below the distance at rank 0.
proof fn lemma_none_below(dists: Seq<u32>, d: u32, j: int)
    requires
        count_below(dists, d) == 0,
        0 <= j < dists.len(),
    ensures
        total_key(dists[j]) >= total_key(d),
    decreases dists.len(),
{
    if j < dists.len() - 1 {
        lemma_none_below(dists.drop_last(), d, j);
    }
}

/// Where every distance is a number from zero up or the canonical NaN, the
/// nearest entry and the entry at rank 0 lie equally far.
pub proof fn lemma_nearest_has_rank_zero(
    dists: Seq<u32>,
    nearest: (NodeId, u32),
    lowest: (NodeId, u32),
)
    requires
        forall|j: int| 0 <= j < dists.len() ==> is_distance(#[trigger] dists[j]),
        is_nearest(dists, nearest),
        has_rank(dists, 0, lowest),
    ensures
        nearest.1 == lowest.1,
{
    lemma_none_below(dists, lowest.1, nearest.0 as int);
    assert(!nearer(dists[lowest.0 as int], nearest.1));
    lemma_nearer_is_total_on_distances(nearest.1, lowest.1);
    lemma_nearer_is_total_on_distances(lowest.1, nearest.1);
}

/// How many entries of `s` satisfy `p`.
spec fn count_if(s: Seq<(NodeId, u32)>, p: spec_fn((NodeId, u32)) -> bool) -> nat
    decreases s.len(),
{
    if s.len() == 0 {
        0
    } else {
        count_if(s.drop_last(), p) + if p(s.last()) {
            1nat
        } else {
            0nat
        }
    }
}

/// Taking one entry out lowers the count by one if the entry satisfies `p`,
/// and leaves it otherwise.
proof fn lemma_count_remove(s: Seq<(NodeId, u32)>, p: spec_fn((NodeId, u32)) -> bool, j: int)
    requires
        0 <= j < s.len(),
    ensures
        count_if(s, p) == count_if(s.remove(j), p) + if p(s[j]) {
            1nat
        } else {
            0nat
        },
    decreases s.len(),
{
    if j == s.len() - 1 {
        assert(s.remove(j) =~= s.drop_last());
    } else {
        lemma_count_remove(s.drop_last(), p, j);
        assert(s.remove(j).drop_last() =~= s.drop_last().remove(j));
        assert(s.remove(j).last() == s.last());
    }
}

/// The count does not depend on the order of the entries.
proof fn lemma_count_reordered(
    a: Seq<(NodeId, u32)>,
    b: Seq<(NodeId, u32)>,
    p: spec_fn((NodeId, u32)) -> bool,
)
    requires
        a.to_multiset() == b.to_multiset(),
    ensures
        count_if(a, p) == count_if(b, p),
    decreases a.len(),
{
    broadcast use vstd::seq_lib::group_to_multiset_ensures;

    assert(a.len() == b.len()) by {
        vstd::seq_lib::to_multiset_len(a);
        vstd::seq_lib::to_multiset_len(b);
    }
    if a.len() > 0 {
        let x = a.last();
        assert(a.contains(x));
        assert(b.to_multiset().count(x) > 0);
        assert(b.contains(x));
        let j = choose|j: int| 0 <= j < b.len() && b[j] == x;
        assert(a.drop_last() =~= a.remove(a.len() - 1));
        assert(a.drop_last().to_multiset() =~= b.remove(j).to_multiset());
        lemma_count_reordered(a.drop_last(), b.remove(j), p);
        lemma_count_remove(b, p, j);
    }
}

/// If no entry from position `m` on satisfies `p`, at most `m` entries do.
proof fn lemma_count_at_most_prefix(
    s: Seq<(NodeId, u32)>,
    p: spec_fn((NodeId, u32)) -> bool,
    m: int,
)
    requires
        0 <= m <= s.len(),
        forall|i: int| m <= i < s.len() ==> !p(#[trigger] s[i]),
    ensures
        count_if(s, p) <= m,
    decreases s.len(),
{
    if s.len() > 0 {
        if m == s.len() {
            lemma_count_at_most_prefix(s.drop_last(), p, m - 1);
        } else {
            lemma_count_at_most_prefix(s.drop_last(), p, m);
        }
    }
}

/// If every entry before position `m` satisfies `p`, at least `m` entries do.
proof fn lemma_count_at_least_prefix(
    s: Seq<(NodeId, u32)>,
    p: spec_fn((NodeId, u32)) -> bool,
    m: int,
)
    requires
        0 <= m <= s.len(),
        forall|i: int| 0 <= i < m ==> p(#[trigger] s[i]),
    ensures
        count_if(s, p) >= m,
    decreases s.len(),
{
    if s.len() > 0 {
        if m == s.len() {
            lemma_count_at_least_prefix(s.drop_last(), p, m - 1);
        } else {
            lemma_count_at_least_prefix(s.drop_last(), p, m);
        }
    }
}

/// Counting entries by their distance is counting the distances.
proof fn lemma_count_of_entries(dists: Seq<u32>, d: u32)
    ensures
        count_if(entries_of(dists), |e: (NodeId, u32)| total_key(e.1) < total_key(d))
            == count_below(dists, d),
        count_if(entries_of(dists), |e: (NodeId, u32)| total_key(e.1) <= total_key(d))
            == count_at_most(dists, d),
    decreases dists.len(),
{
    if dists.len() > 0 {
        lemma_count_of_entries(dists.drop_last(), d);
        assert(entries_of(dists).drop_last() =~= entries_of(dists.drop_last()));
    }
}

/// An entry that selection has placed at `rank` stands at that rank.
proof fn lemma_placed_has_rank(dists: Seq<u32>, after: Seq<(NodeId, u32)>, rank: usize)
    requires
        rank < dists.len(),
        dists.len() <= usize::MAX,
        placed(entries_of(dists), after, rank),
    ensures
        has_rank(dists, rank, after[rank as int]),
{
    broadcast use vstd::seq_lib::group_to_multiset_ensures;

    let before = entries_of(dists);
    let entry = after[rank as int];
    let d = entry.1;
    assert(after.contains(entry));
    assert(before.to_multiset().count(entry) > 0);
    assert(before.contains(entry));
    let j = choose|j: int| 0 <= j < before.len() && before[j] == entry;
    assert(entry.0 == j && d == dists[j]);

    let below = |e: (NodeId, u32)| total_key(e.1) < total_key(d);
    let at_most = |e: (NodeId, u32)| total_key(e.1) <= total_key(d);
    lemma_count_of_entries(dists, d);
    lemma_count_reordered(before, after, below);
    lemma_count_reordered(before, after, at_most);
    assert forall|i: int| rank <= i < after.len() implies !below(#[trigger] after[i]) by {
        if i > rank {
            assert(total_key(after[i].1) >= total_key(after[rank as int].1));
        }
    }
    lemma_count_at_most_prefix(after, below, rank as int);
    assert forall|i: int| 0 <= i < rank + 1 implies at_most(#[trigger] after[i]) by {
        if i < rank {
            assert(total_key(after[i].1) <= total_key(after[rank as int].1));
        }
    }
    lemma_count_at_least_prefix(after, at_most, rank + 1);
}

} // verus!
