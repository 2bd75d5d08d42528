//! The influence buffer: for every node, the sum of the directions in which
//! attractors pull on it and the number of attractors that do.
use vstd::prelude::*;
use glam::Vec2;
use crate::geometry::{quotient, sum, uniform, uniform_vec, vec_quotient, vec_sum, zero, zero_vec};
use crate::types::NodeId;

verus! {

/// Accumulated pull per node, by node index.
#[derive(Debug)]
pub struct InfluenceBuffer {
    /// Sum of the directions added for each node.
    pub dir: Vec<Vec2>,
    /// Number of directions added for each node.
    pub count: Vec<u32>,
}

/// A buffer as contracts see it.
pub struct BufferView {
    pub dir: Seq<Vec2>,
    pub count: Seq<u32>,
}

impl View for InfluenceBuffer {
    type V = BufferView;

    /// The two parts as sequences.
    open spec fn view(&self) -> BufferView {
        BufferView { dir: self.dir@, count: self.count@ }
    }
}

impl BufferView {
    /// Both parts have one entry per node.
    pub open spec fn wf(self) -> bool {
        self.dir.len() == self.count.len()
    }

    /// Number of nodes described.
    pub open spec fn len(self) -> nat {
        self.count.len()
    }

    /// The buffer of length `n` that holds no pull at all.
    pub open spec fn cleared(n: nat) -> BufferView {
        BufferView { dir: Seq::new(n, |i: int| zero()), count: Seq::new(n, |i: int| 0u32) }
    }

    /// This buffer after one more pull `v` on node `id`.
    pub open spec fn with_pull(self, id: NodeId, v: Vec2) -> BufferView
        recommends
            self.wf(),
            id < self.len(),
            self.count[id as int] < u32::MAX,
    {
        BufferView {
            dir: self.dir.update(id as int, vec_sum(self.dir[id as int], v)),
            count: self.count.update(id as int, (self.count[id as int] + 1) as u32),
        }
    }

    /// This buffer after the pulls `vs` on node `id`, in that order.
    pub open spec fn with_pulls(self, id: NodeId, vs: Seq<Vec2>) -> BufferView
        decreases vs.len(),
    {
        if vs.len() == 0 {
            self
        } else {
            self.with_pulls(id, vs.drop_last()).with_pull(id, vs.last())
        }
    }

    /// Mean pull on node `id`: the sum divided by the count, or the zero
    /// vector when nothing pulls.
    pub open spec fn mean(self, id: NodeId) -> Vec2
        recommends
            self.wf(),
            id < self.len(),
    {
        if self.count[id as int] == 0 {
            zero()
        } else {
            vec_quotient(self.dir[id as int], uniform(self.count[id as int]))
        }
    }

    /// This buffer with the pulls of `other` added node by node.
    pub open spec fn merged(self, other: BufferView) -> BufferView
        recommends
            self.wf(),
            other.wf(),
            self.len() == other.len(),
    {
        BufferView {
            dir: Seq::new(self.dir.len(), |i: int| vec_sum(self.dir[i], other.dir[i])),
            count: Seq::new(self.count.len(), |i: int| (self.count[i] + other.count[i]) as u32),
        }
    }

    /// `other` can be merged in: both buffers have one entry per node, for
    /// the same number of nodes, and no count would overflow.
    pub open spec fn can_merge(self, other: BufferView) -> bool {
        &&& self.wf()
        &&& other.wf()
        &&& self.len() == other.len()
        &&& forall|i: int|
            0 <= i < self.len() ==> #[trigger] self.count[i] + other.count[i] <= u32::MAX
    }
}

/// The indices below `n` at which `count` is not zero, ascending.
pub open spec fn influenced_below(count: Seq<u32>, n: nat) -> Seq<NodeId>
    recommends
        n <= count.len(),
    decreases n,
{
    if n == 0 {
        Seq::empty()
    } else if count[n - 1] > 0 {
        influenced_below(count, (n - 1) as nat).push((n - 1) as usize)
    } else {
        influenced_below(count, (n - 1) as nat)
    }
}

/// The sum of `vs` taken from the left, starting with the zero vector.
pub open spec fn sum_of(vs: Seq<Vec2>) -> Vec2
    decreases vs.len(),
{
    if vs.len() == 0 {
        zero()
    } else {
        vec_sum(sum_of(vs.drop_last()), vs.last())
    }
}

impl InfluenceBuffer {
    /// Both parts have one entry per node.
    pub open spec fn wf(&self) -> bool {
        self@.wf()
    }

    /// A buffer for `len` nodes that holds no pull.
    pub fn with_len(len: usize) -> (buf: Self)
        ensures
            buf@ == BufferView::cleared(len as nat),
            buf.wf(),
    {
        let mut dir: Vec<Vec2> = Vec::with_capacity(len);
        let mut count: Vec<u32> = Vec::with_capacity(len);
        let mut i: usize = 0;
        while i < len
            invariant
                i <= len,
                dir@.len() == i,
                count@.len() == i,
                forall|j: int| 0 <= j < i ==> #[trigger] dir@[j] == zero(),
                forall|j: int| 0 <= j < i ==> #[trigger] count@[j] == 0,
            decreases len - i,
        {
            dir.push(zero_vec());
            count.push(0);
            i += 1;
        }
        let buf = Self { dir, count };
        proof {
            assert(buf@.dir =~= BufferView::cleared(len as nat).dir);
            assert(buf@.count =~= BufferView::cleared(len as nat).count);
        }
        buf
    }

    /// Brings the buffer to `len` nodes and empties it: whatever it held, it
    /// then holds no pull.
    pub fn ensure_len(&mut self, len: usize)
        ensures
            final(self)@ == BufferView::cleared(len as nat),
            final(self).wf(),
    {
        if self.dir.len() != len {
            self.dir.resize(len, zero_vec());
        }
        if self.count.len() != len {
            self.count.resize(len, 0);
        }
        self.clear();
    }

    /// Empties the buffer; its length stays.
    pub fn clear(&mut self)
        ensures
            final(self)@.dir == BufferView::cleared(old(self)@.dir.len()).dir,
            final(self)@.count == BufferView::cleared(old(self)@.count.len()).count,
    {
        let n: usize = self.dir.len();
        let mut i: usize = 0;
        while i < n
            invariant
                n == self.dir@.len(),
                n == old(self).dir@.len(),
                self.count@ == old(self).count@,
                i <= n,
                forall|j: int| 0 <= j < i ==> #[trigger] self.dir@[j] == zero(),
            decreases n - i,
        {
            self.dir[i] = zero_vec();
            i += 1;
        }
        let m: usize = self.count.len();
        let mut k: usize = 0;
        while k < m
            invariant
                m == self.count@.len(),
                m == old(self).count@.len(),
                self.dir@.len() == old(self).dir@.len(),
                forall|j: int| 0 <= j < self.dir@.len() ==> #[trigger] self.dir@[j] == zero(),
                k <= m,
                forall|j: int| 0 <= j < k ==> #[trigger] self.count@[j] == 0,
            decreases m - k,
        {
            self.count[k] = 0;
            k += 1;
        }
        proof {
            assert(self@.dir =~= BufferView::cleared(old(self)@.dir.len()).dir);
            assert(self@.count =~= BufferView::cleared(old(self)@.count.len()).count);
        }
    }

    /// Adds the pull `dir` to node `id` and counts it.
    pub fn add(&mut self, id: NodeId, dir: Vec2)
        requires
            old(self).wf(),
            id < old(self)@.len(),
            old(self)@.count[id as int] < u32::MAX,
        ensures
            final(self)@ == old(self)@.with_pull(id, dir),
            final(self).wf(),
    {
        self.dir[id] = sum(self.dir[id], dir);
        self.count[id] = self.count[id] + 1;
    }

    /// Mean pull on node `id`; the zero vector when nothing pulls on it.
    pub fn avg_dir(&self, id: NodeId) -> (r: Vec2)
        requires
            self.wf(),
            id < self@.len(),
        ensures
            r == self@.mean(id),
    {
        let c: u32 = self.count[id];
        if c == 0 {
            zero_vec()
        } else {
            quotient(self.dir[id], uniform_vec(c))
        }
    }

    /// Whether anything pulls on node `id`.
    pub fn is_influenced(&self, id: NodeId) -> (r: bool)
        requires
            id < self@.len(),
        ensures
            r == (self@.count[id as int] > 0),
    {
        self.count[id] > 0
    }

    /// The nodes on which something pulls, in ascending order of index.
    pub fn influenced_indices(&self) -> (ids: Vec<NodeId>)
        ensures
            ids@ == influenced_below(self@.count, self@.len()),
            forall|j: int|
                0 <= j < ids@.len() ==> {
                    let id = #[trigger] ids@[j];
                    id < self@.len() && self@.count[id as int] > 0
                },
            forall|i: int, j: int| 0 <= i < j < ids@.len() ==> ids@[i] < ids@[j],
            forall|i: int|
                0 <= i < self@.len() && self@.count[i] > 0 ==> ids@.contains(i as usize),
    {
        let n: usize = self.count.len();
        proof {
            lemma_influenced_ascend(self@.count, self@.len());
        }
        let mut ids: Vec<NodeId> = Vec::new();
        let mut i: usize = 0;
        while i < n
            invariant
                n == self@.count.len(),
                i <= n,
                ids@ == influenced_below(self@.count, i as nat),
            decreases n - i,
        {
            if self.count[i] > 0 {
                ids.push(i);
            }
            i += 1;
        }
        ids
    }

    /// Adds the pulls of `other` to this buffer, node by node.
    pub fn merge_from(&mut self, other: &InfluenceBuffer)
        requires
            old(self)@.can_merge(other@),
        ensures
            final(self)@ == old(self)@.merged(other@),
            final(self).wf(),
    {
        let n: usize = self.dir.len();
        let mut i: usize = 0;
        while i < n
            invariant
                old(self)@.can_merge(other@),
                n == old(self)@.len(),
                self@.dir.len() == n,
                self@.count.len() == n,
                i <= n,
                forall|j: int|
                    0 <= j < i ==> #[trigger] self@.dir[j] == vec_sum(
                        old(self)@.dir[j],
                        other@.dir[j],
                    ),
                forall|j: int|
                    0 <= j < i ==> #[trigger] self@.count[j] == old(self)@.count[j]
                        + other@.count[j],
                forall|j: int| i <= j < n ==> #[trigger] self@.dir[j] == old(self)@.dir[j],
                forall|j: int| i <= j < n ==> #[trigger] self@.count[j] == old(self)@.count[j],
            decreases n - i,
        {
            self.dir[i] = sum(self.dir[i], other.dir[i]);
            self.count[i] = self.count[i] + other.count[i];
            i += 1;
        }
        proof {
            assert(self@.dir =~= old(self)@.merged(other@).dir);
            assert(self@.count =~= old(self)@.merged(other@).count);
        }
    }
}

/// In an empty buffer the mean pull on every node is the zero vector.
pub proof fn lemma_mean_without_pull(n: nat, id: NodeId)
    requires
        id < n,
    ensures
        BufferView::cleared(n).mean(id) == zero(),
{
}

/// After the pulls `vs` on one node of an empty buffer, the mean pull on that
/// node is their sum, taken from the left, divided by their number.
pub proof fn lemma_mean_of_pulls(n: nat, id: NodeId, vs: Seq<Vec2>)
    requires
        id < n,
        0 < vs.len() <= u32::MAX,
    ensures
        BufferView::cleared(n).with_pulls(id, vs).mean(id) == vec_quotient(
            sum_of(vs),
            uniform(vs.len() as u32),
        ),
{
    lemma_pulls_accumulate(n, id, vs);
}

/// After the pulls `vs` on node `id` of an empty buffer, that node holds their
/// sum and their number, and every other node is still empty.
pub proof fn lemma_pulls_accumulate(n: nat, id: NodeId, vs: Seq<Vec2>)
    requires
        id < n,
        vs.len() <= u32::MAX,
    ensures
        BufferView::cleared(n).with_pulls(id, vs).wf(),
        BufferView::cleared(n).with_pulls(id, vs).len() == n,
        BufferView::cleared(n).with_pulls(id, vs).dir[id as int] == sum_of(vs),
        BufferView::cleared(n).with_pulls(id, vs).count[id as int] == vs.len(),
        forall|i: int|
            0 <= i < n && i != id ==> BufferView::cleared(n).with_pulls(id, vs).dir[i] == zero()
                && BufferView::cleared(n).with_pulls(id, vs).count[i] == 0,
    decreases vs.len(),
{
    if vs.len() > 0 {
        lemma_pulls_accumulate(n, id, vs.drop_last());
    }
}

/// Merging two buffers into a third gives the same counts in either order.
pub proof fn lemma_merge_counts_commute(x: BufferView, a: BufferView, b: BufferView)
    requires
        x.wf(),
        a.wf(),
        b.wf(),
        x.len() == a.len() == b.len(),
        forall|i: int|
            0 <= i < x.len() ==> #[trigger] x.count[i] + a.count[i] + b.count[i] <= u32::MAX,
    ensures
        x.merged(a).merged(b).count == x.merged(b).merged(a).count,
{
    assert(x.merged(a).merged(b).count =~= x.merged(b).merged(a).count) by {
        assert forall|i: int| 0 <= i < x.len() implies x.merged(a).merged(b).count[i] == x.merged(
            b,
        ).merged(a).count[i] by {
            assert(x.count[i] + a.count[i] + b.count[i] <= u32::MAX);
        }
    }
}

/// Merging two buffers one after the other gives the same counts as merging
/// what the two give when merged with each other: for every node, the sum of
/// the three counts.
pub proof fn lemma_merge_counts_associate(x: BufferView, a: BufferView, b: BufferView)
    requires
        x.wf(),
        a.wf(),
        b.wf(),
        x.len() == a.len() == b.len(),
        forall|i: int|
            0 <= i < x.len() ==> #[trigger] x.count[i] + a.count[i] + b.count[i] <= u32::MAX,
    ensures
        x.merged(a).merged(b).count == x.merged(a.merged(b)).count,
        forall|i: int|
            0 <= i < x.len() ==> #[trigger] x.merged(a).merged(b).count[i] == x.count[i]
                + a.count[i] + b.count[i],
{
    assert forall|i: int| 0 <= i < x.len() implies #[trigger] x.merged(a).merged(b).count[i]
        == x.count[i] + a.count[i] + b.count[i] by {
        assert(x.count[i] + a.count[i] + b.count[i] <= u32::MAX);
    }
    assert(x.merged(a).merged(b).count =~= x.merged(a.merged(b)).count) by {
        assert forall|i: int| 0 <= i < x.len() implies x.merged(a).merged(b).count[i] == x.merged(
            a.merged(b),
        ).count[i] by {
            assert(x.count[i] + a.count[i] + b.count[i] <= u32::MAX);
        }
    }
}

/// Merging one buffer into another gives the same counts whichever of the
/// two is merged into the other.
pub proof fn lemma_merge_counts_swap(a: BufferView, b: BufferView)
    requires
        a.can_merge(b),
    ensures
        a.merged(b).count == b.merged(a).count,
{
    assert(a.merged(b).count =~= b.merged(a).count);
}

/// Merging one buffer into another gives the same buffer whichever of the
/// two is merged into the other, and so the same mean pull on every node,
/// where the sum of each pair of directions is the same vector in either
/// order. That is asked of the pairs here and not taken on trust: the source
/// of `glam` does not say that its sum commutes.
pub proof fn lemma_merge_swap(a: BufferView, b: BufferView)
    requires
        a.can_merge(b),
        forall|i: int|
            0 <= i < a.len() ==> #[trigger] vec_sum(a.dir[i], b.dir[i]) == vec_sum(
                b.dir[i],
                a.dir[i],
            ),
    ensures
        a.merged(b) == b.merged(a),
        forall|id: NodeId| id < a.len() ==> #[trigger] a.merged(b).mean(id) == b.merged(a).mean(id),
{
    assert(a.merged(b).count =~= b.merged(a).count);
    assert(a.merged(b).dir =~= b.merged(a).dir) by {
        assert forall|i: int| 0 <= i < a.len() implies a.merged(b).dir[i] == b.merged(a).dir[i] by {
            assert(vec_sum(a.dir[i], b.dir[i]) == vec_sum(b.dir[i], a.dir[i]));
        }
    }
}

/// Merging three buffers gives the same buffer however they are grouped,
/// where the sum of each triple of directions is the same vector however it
/// is grouped. That is asked of the triples here and not taken on trust:
/// binary32 sums round, and in general they do not regroup.
pub proof fn lemma_merge_regroup(a: BufferView, b: BufferView, c: BufferView)
    requires
        a.wf(),
        b.wf(),
        c.wf(),
        a.len() == b.len() == c.len(),
        forall|i: int|
            0 <= i < a.len() ==> #[trigger] a.count[i] + b.count[i] + c.count[i] <= u32::MAX,
        forall|i: int|
            0 <= i < a.len() ==> #[trigger] vec_sum(vec_sum(a.dir[i], b.dir[i]), c.dir[i])
                == vec_sum(a.dir[i], vec_sum(b.dir[i], c.dir[i])),
    ensures
        a.merged(b).merged(c) == a.merged(b.merged(c)),
{
    lemma_merge_counts_associate(a, b, c);
    assert(a.merged(b).merged(c).dir =~= a.merged(b.merged(c)).dir) by {
        assert forall|i: int| 0 <= i < a.len() implies a.merged(b).merged(c).dir[i] == a.merged(
            b.merged(c),
        ).dir[i] by {
            assert(vec_sum(vec_sum(a.dir[i], b.dir[i]), c.dir[i]) == vec_sum(
                a.dir[i],
                vec_sum(b.dir[i], c.dir[i]),
            ));
        }
    }
}

/// [`influenced_below`] lists exactly the indices below the bound that have a
/// count above zero, each once and in ascending order.
pub proof fn lemma_influenced_ascend(count: Seq<u32>, n: nat)
    requires
        n <= count.len() <= usize::MAX,
    ensures
        forall|j: int|
            0 <= j < influenced_below(count, n).len() ==> {
                let id = #[trigger] influenced_below(count, n)[j];
                id < n && count[id as int] > 0
            },
        forall|i: int, j: int|
            0 <= i < j < influenced_below(count, n).len() ==> influenced_below(count, n)[i]
                < influenced_below(count, n)[j],
        forall|i: int|
            0 <= i < n && count[i] > 0 ==> influenced_below(count, n).contains(i as usize),
    decreases n,
{
    if n > 0 {
        lemma_influenced_ascend(count, (n - 1) as nat);
        let before = influenced_below(count, (n - 1) as nat);
        let all = influenced_below(count, n);
        assert forall|j: int| 0 <= j < all.len() implies {
            let id = #[trigger] all[j];
            id < n && count[id as int] > 0
        } by {
            if j < before.len() {
                assert(all[j] == before[j]);
            }
        }
        assert forall|i: int, j: int| 0 <= i < j < all.len() implies all[i] < all[j] by {
            assert(all[i] == before[i]);
            if j < before.len() {
                assert(all[j] == before[j]);
            }
        }
        assert forall|i: int| 0 <= i < n && count[i] > 0 implies all.contains(i as usize) by {
            if i < n - 1 {
                assert(before.contains(i as usize));
                let j = choose|j: int| 0 <= j < before.len() && before[j] == i as usize;
                assert(all[j] == i as usize);
            } else {
                assert(all[all.len() - 1] == i as usize);
            }
        }
    }
}

} // verus!
