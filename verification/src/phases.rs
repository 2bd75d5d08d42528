//! The three phases of a simulation step, to be run in this order:
//! [`attraction_phase`], [`growth_phase`], [`kill_phase`].
use vstd::prelude::*;
use glam::Vec2;
use crate::attractor::{Attractor, AttractorSet};
use crate::config::Config;
use crate::geometry::{
    diff, dist_squared, length_squared, length_squared_bits, product, sum, unit, unit_or_zero,
    vec_diff, vec_product, vec_sum,
};
use crate::influence_buffer::{
    influenced_below, lemma_influenced_ascend, BufferView, InfluenceBuffer,
};
use crate::order::{less, less_than};
use crate::rank::kth_nearest;
use crate::tree::{
    child_node, distances, extends, linked, near_child, node_linked, with_child, NodeView, Tree,
};
use crate::types::NodeId;

verus! {

/// The node that an attractor at `pos` pulls on: the node at the configured
/// rank, if its squared distance is below the squared influence radius. A
/// distance that is a NaN is below no radius.
pub open spec fn target(nodes: Seq<NodeView>, pos: Vec2, cfg: Config) -> Option<NodeId> {
    match kth_nearest(distances(nodes, pos), cfg.attract_from_kn) {
        Some((id, d2)) => if less(d2, cfg.influence_radius2) {
            Some(id)
        } else {
            None
        },
        None => None,
    }
}

/// The pull of an attractor at `pos` on node `id`: the direction from the node
/// to the attractor, of length one, or the zero vector where the two coincide.
pub open spec fn pull(nodes: Seq<NodeView>, pos: Vec2, id: NodeId) -> Vec2 {
    unit_or_zero(vec_diff(pos, nodes[id as int].pos))
}

/// An attractor after the attraction phase: a live one is owned by its
/// target, a dead one is as it was.
pub open spec fn attracted(nodes: Seq<NodeView>, a: Attractor, cfg: Config) -> Attractor {
    if a.alive {
        Attractor { owner: target(nodes, a.pos, cfg), ..a }
    } else {
        a
    }
}

/// The buffer after the pulls of the first `n` attractors, taken in order
/// from an empty buffer with one entry per node.
pub open spec fn pulls(
    nodes: Seq<NodeView>,
    attractors: Seq<Attractor>,
    cfg: Config,
    n: nat,
) -> BufferView
    recommends
        n <= attractors.len(),
    decreases n,
{
    if n == 0 {
        BufferView::cleared(nodes.len())
    } else {
        let before = pulls(nodes, attractors, cfg, (n - 1) as nat);
        let a = attractors[n - 1];
        match target(nodes, a.pos, cfg) {
            Some(id) if a.alive => before.with_pull(id, pull(nodes, a.pos, id)),
            _ => before,
        }
    }
}

/// The attractor is alive and owned by node `s`.
pub open spec fn owns(a: Attractor, s: NodeId) -> bool {
    a.alive && a.owner == Some(s)
}

/// How many of the first `n` attractors are alive and owned by node `s`.
pub open spec fn owned_by(attractors: Seq<Attractor>, s: NodeId, n: nat) -> nat
    recommends
        n <= attractors.len(),
    decreases n,
{
    if n == 0 {
        0
    } else {
        owned_by(attractors, s, (n - 1) as nat) + if owns(attractors[n - 1], s) {
            1nat
        } else {
            0nat
        }
    }
}

/// Whether the tree consumes an attractor at `pos`: the node at the
/// configured rank lies at a squared distance below the squared kill radius.
/// A distance that is a NaN is below no radius.
pub open spec fn consumed(nodes: Seq<NodeView>, pos: Vec2, cfg: Config) -> bool {
    match kth_nearest(distances(nodes, pos), cfg.kill_from_kn) {
        Some((_, d2)) => less(d2, cfg.kill_radius2),
        None => false,
    }
}

/// An attractor after the kill phase: dead if it was dead or is consumed.
pub open spec fn killed(nodes: Seq<NodeView>, a: Attractor, cfg: Config) -> Attractor {
    if a.alive && consumed(nodes, a.pos, cfg) {
        Attractor { alive: false, ..a }
    } else {
        a
    }
}

/// Square of the distance within which a new node counts as a duplicate of a
/// child that its parent already has: the bit pattern of the binary32 product
/// of 0.1 with itself.
pub const DUPLICATE_EPS2: u32 = 0x3c23_d70b;

/// A child that the growth phase will add: its parent, its position and its
/// radius.
pub type Sprout = (NodeId, Vec2, u32);

/// The direction in which a node grows under the mean pull `mean`: the mean
/// brought to length one unless its squared length is not above zero, then the
/// tropism added, then the whole brought to length one, or to the zero vector
/// where it has no direction.
pub open spec fn growth_direction(mean: Vec2, tropism: Vec2) -> Vec2 {
    let towards = if less(0, length_squared(mean)) {
        unit(mean)
    } else {
        mean
    };
    unit_or_zero(vec_sum(towards, tropism))
}

/// Where node `id` would put a child: one step from the node in its growth
/// direction.
pub open spec fn candidate(nodes: Seq<NodeView>, acc: BufferView, cfg: Config, id: NodeId) -> Vec2 {
    vec_sum(
        nodes[id as int].pos,
        vec_product(growth_direction(acc.mean(id), cfg.tropism), cfg.step),
    )
}

/// Whether node `id` gets a child: not when it already has one within the
/// duplicate distance of the candidate position.
pub open spec fn sprouts(nodes: Seq<NodeView>, acc: BufferView, cfg: Config, id: NodeId) -> bool {
    !near_child(nodes, id, candidate(nodes, acc, cfg, id), DUPLICATE_EPS2)
}

/// The children to add for the nodes `ids`, in that order. All of them are
/// decided on the tree as it is before any is added.
pub open spec fn planned(
    nodes: Seq<NodeView>,
    acc: BufferView,
    cfg: Config,
    ids: Seq<NodeId>,
) -> Seq<Sprout>
    decreases ids.len(),
{
    if ids.len() == 0 {
        Seq::empty()
    } else {
        let before = planned(nodes, acc, cfg, ids.drop_last());
        let id = ids.last();
        if sprouts(nodes, acc, cfg, id) {
            before.push((id, candidate(nodes, acc, cfg, id), nodes[id as int].radius))
        } else {
            before
        }
    }
}

/// `nodes` after the children of `plan` have been added in order.
pub open spec fn grown(nodes: Seq<NodeView>, plan: Seq<Sprout>) -> Seq<NodeView>
    decreases plan.len(),
{
    if plan.len() == 0 {
        nodes
    } else {
        let last = plan.last();
        with_child(grown(nodes, plan.drop_last()), last.0, last.1, last.2)
    }
}

/// The whole plan of a growth phase: the children for all influenced nodes.
pub open spec fn growth_plan(nodes: Seq<NodeView>, acc: BufferView, cfg: Config) -> Seq<Sprout> {
    planned(nodes, acc, cfg, influenced_below(acc.count, acc.len()))
}

/// No planned child has node `i` as its parent.
pub open spec fn unplanned(plan: Seq<Sprout>, i: int) -> bool {
    forall|j: int| 0 <= j < plan.len() ==> (#[trigger] plan[j]).0 != i
}

/// What a growth phase with the plan `plan` has made of the tree `before`:
/// the plan names exactly the influenced nodes that sprout, each once and in
/// ascending order, and for each of them `after` holds one new node, in the
/// order of the plan behind the old nodes, at the parent's candidate
/// position, with the parent's radius, without children, and entered last in
/// the parent's child list.
pub open spec fn sprouted(
    before: Seq<NodeView>,
    acc: BufferView,
    cfg: Config,
    plan: Seq<Sprout>,
    after: Seq<NodeView>,
) -> bool {
    &&& after.len() == before.len() + plan.len()
    &&& forall|j: int|
        0 <= j < plan.len() ==> {
            let parent = (#[trigger] plan[j]).0;
            &&& parent < before.len()
            &&& parent < acc.len()
            &&& acc.count[parent as int] > 0
            &&& sprouts(before, acc, cfg, parent)
            &&& after[before.len() + j] == child_node(
                candidate(before, acc, cfg, parent),
                before[parent as int].radius,
                parent,
            )
            &&& after[parent as int].children == before[parent as int].children.push(
                (before.len() + j) as usize,
            )
        }
    &&& forall|i: int, j: int| 0 <= i < j < plan.len() ==> plan[i].0 < plan[j].0
    &&& forall|id: NodeId|
        id < acc.len() && acc.count[id as int] > 0 && #[trigger] sprouts(before, acc, cfg, id)
            ==> !unplanned(plan, id as int)
    &&& forall|i: int|
        0 <= i < before.len() && unplanned(plan, i) ==> (#[trigger] after[i]).children
            == before[i].children
}

/// Node `c` keeps the duplicate distance from its siblings: no other child of
/// its parent lies at a squared distance below [`DUPLICATE_EPS2`] from it.
pub open spec fn apart_from_siblings(nodes: Seq<NodeView>, c: NodeId) -> bool {
    nodes[c as int].parent matches Some(p) ==> forall|i: int|
        0 <= i < nodes[p as int].children.len() && nodes[p as int].children[i] != c ==> {
            let sibling = #[trigger] nodes[p as int].children[i];
            !less(dist_squared(nodes[sibling as int].pos, nodes[c as int].pos), DUPLICATE_EPS2)
        }
}

/// Every influenced node of the buffer exists in a tree of `n` nodes.
pub open spec fn describes(acc: BufferView, n: nat) -> bool {
    &&& acc.wf()
    &&& forall|i: int| 0 <= i < acc.len() && #[trigger] acc.count[i] > 0 ==> i < n
}

/// Rebuilds the buffer from the live attractors and gives each of them its
/// owner.
///
/// The buffer is brought to the size of the tree and emptied. Then every live
/// attractor, in order, looks up the node at rank `cfg.attract_from_kn`. If
/// that node is within the influence radius, the attractor adds its pull to
/// the node's entry and takes the node as owner; if not, or if the tree has no
/// node, it is left without owner. Dead attractors are not touched.
pub fn attraction_phase(
    tree: &Tree,
    attractors: &mut AttractorSet,
    cfg: &Config,
    acc: &mut InfluenceBuffer,
)
    requires
        old(attractors)@.len() <= u32::MAX,
    ensures
        final(attractors)@.len() == old(attractors)@.len(),
        forall|i: int|
            0 <= i < old(attractors)@.len() ==> #[trigger] final(attractors)@[i] == attracted(
                tree@,
                old(attractors)@[i],
                *cfg,
            ),
        forall|i: int|
            0 <= i < old(attractors)@.len() ==> (#[trigger] final(attractors)@[i]).alive == old(
                attractors,
            )@[i].alive && final(attractors)@[i].pos == old(attractors)@[i].pos,
        forall|i: int|
            0 <= i < old(attractors)@.len() && old(attractors)@[i].alive ==> (
            #[trigger] final(attractors)@[i].owner matches Some(id) ==> id < tree@.len()),
        final(acc)@ == pulls(tree@, old(attractors)@, *cfg, old(attractors)@.len()),
        final(acc).wf(),
        final(acc)@.len() == tree@.len(),
        forall|s: NodeId|
            s < tree@.len() ==> final(acc)@.count[s as int] == #[trigger] owned_by(
                final(attractors)@,
                s,
                old(attractors)@.len(),
            ),
{
    acc.ensure_len(tree.nodes.len());
    let n: usize = attractors.points.len();
    let mut i: usize = 0;
    while i < n
        invariant
            n == old(attractors)@.len(),
            n <= u32::MAX,
            attractors@.len() == n,
            i <= n,
            forall|j: int|
                0 <= j < i ==> #[trigger] attractors@[j] == attracted(
                    tree@,
                    old(attractors)@[j],
                    *cfg,
                ),
            forall|j: int| i <= j < n ==> #[trigger] attractors@[j] == old(attractors)@[j],
            acc@ == pulls(tree@, old(attractors)@, *cfg, i as nat),
            acc.wf(),
            acc@.len() == tree@.len(),
            forall|s: int| 0 <= s < acc@.len() ==> #[trigger] acc@.count[s] <= i,
            forall|j: int|
                0 <= j < i && old(attractors)@[j].alive ==> (
                #[trigger] attractors@[j].owner matches Some(id) ==> id < tree@.len()),
            forall|s: NodeId|
                s < acc@.len() ==> acc@.count[s as int] == #[trigger] owned_by(
                    attractors@,
                    s,
                    i as nat,
                ),
        decreases n - i,
    {
        let ghost before = attractors@;
        let ghost acc_before = acc@;
        if attractors.points[i].alive {
            let pos: Vec2 = attractors.points[i].pos;
            match tree.find_kth_nearest_nodes(pos, cfg.attract_from_kn) {
                Some((id, d2)) => {
                    if less_than(d2, cfg.influence_radius2) {
                        let dir: Vec2 = diff(pos, tree.nodes[id].pos).normalize_or_zero();
                        acc.add(id, dir);
                        attractors.points[i].owner = Some(id);
                    } else {
                        attractors.points[i].owner = None;
                    }
                },
                None => {
                    attractors.points[i].owner = None;
                },
            }
        }
        proof {
            let a = attractors@[i as int];
            assert(a == attracted(tree@, old(attractors)@[i as int], *cfg));
            assert(acc@ == pulls(tree@, old(attractors)@, *cfg, (i + 1) as nat));
            assert forall|s: NodeId| s < acc@.len() implies acc@.count[s as int]
                == #[trigger] owned_by(attractors@, s, (i + 1) as nat) by {
                lemma_owned_by_reads_prefix(before, attractors@, s, i as nat);
                assert(acc_before.count[s as int] == owned_by(before, s, i as nat));
                assert(owned_by(attractors@, s, (i + 1) as nat) == owned_by(
                    attractors@,
                    s,
                    i as nat,
                ) + if owns(a, s) {
                    1nat
                } else {
                    0nat
                });
                assert(acc@.count[s as int] == acc_before.count[s as int] + if owns(a, s) {
                    1nat
                } else {
                    0nat
                });
            }
        }
        i += 1;
    }
}

/// Grows one child from every influenced node, unless the node already has a
/// child there.
///
/// For each influenced node, in ascending order, the mean pull gives the
/// [`growth_direction`] and with it the [`candidate`] position, one step from
/// the node; a candidate within the duplicate distance of a child that the
/// node already has is dropped. All candidates are decided before the tree
/// changes. Then the children are added in the same order, each with the
/// radius of its parent, and their indices are returned in that order.
pub fn growth_phase(tree: &mut Tree, acc: &InfluenceBuffer, cfg: &Config) -> (new_ids: Vec<NodeId>)
    requires
        old(tree).wf(),
        describes(acc@, old(tree)@.len()),
    ensures
        final(tree)@ == grown(old(tree)@, growth_plan(old(tree)@, acc@, *cfg)),
        new_ids@.len() == growth_plan(old(tree)@, acc@, *cfg).len(),
        forall|j: int| 0 <= j < new_ids@.len() ==> #[trigger] new_ids@[j] == old(tree)@.len() + j,
        forall|j: int|
            0 <= j < new_ids@.len() ==> apart_from_siblings(final(tree)@, #[trigger] new_ids@[j]),
        extends(old(tree)@, final(tree)@),
        sprouted(old(tree)@, acc@, *cfg, growth_plan(old(tree)@, acc@, *cfg), final(tree)@),
        final(tree).wf(),
{
    let mut new_ids: Vec<NodeId> = Vec::with_capacity(16);
    let mut to_add: Vec<Sprout> = Vec::with_capacity(16);
    let ids = acc.influenced_indices();
    let mut i: usize = 0;
    while i < ids.len()
        invariant
            tree.wf(),
            tree@ == old(tree)@,
            describes(acc@, tree@.len()),
            ids@ == influenced_below(acc@.count, acc@.len()),
            forall|j: int|
                0 <= j < ids@.len() ==> {
                    let id = #[trigger] ids@[j];
                    id < acc@.len() && acc@.count[id as int] > 0
                },
            i <= ids@.len(),
            to_add@ == planned(tree@, acc@, *cfg, ids@.subrange(0, i as int)),
            forall|j: int| 0 <= j < to_add@.len() ==> (#[trigger] to_add@[j]).0 < tree@.len(),
        decreases ids@.len() - i,
    {
        let id: usize = ids[i];
        let mut dir: Vec2 = acc.avg_dir(id);
        if less_than(0, length_squared_bits(dir)) {
            dir = dir.normalize();
        }
        dir = sum(dir, cfg.tropism).normalize_or_zero();
        let new_pos: Vec2 = sum(tree.nodes[id].pos, product(dir, cfg.step));
        let new_radius: u32 = tree.nodes[id].radius;
        proof {
            assert(ids@.subrange(0, i + 1).drop_last() =~= ids@.subrange(0, i as int));
            assert(new_pos == candidate(tree@, acc@, *cfg, id));
        }
        if !tree.has_child_near(id, new_pos, DUPLICATE_EPS2) {
            to_add.push((id, new_pos, new_radius));
        }
        i += 1;
    }
    proof {
        assert(ids@.subrange(0, ids@.len() as int) =~= ids@);
    }
    let mut k: usize = 0;
    while k < to_add.len()
        invariant
            old(tree).wf(),
            to_add@ == growth_plan(old(tree)@, acc@, *cfg),
            forall|j: int| 0 <= j < to_add@.len() ==> (#[trigger] to_add@[j]).0 < old(tree)@.len(),
            k <= to_add@.len(),
            tree@ == grown(old(tree)@, to_add@.subrange(0, k as int)),
            tree@.len() == old(tree)@.len() + k,
            tree.wf(),
            new_ids@.len() == k,
            forall|j: int| 0 <= j < k ==> #[trigger] new_ids@[j] == old(tree)@.len() + j,
        decreases to_add@.len() - k,
    {
        let (p, pos, r) = to_add[k];
        proof {
            assert(to_add@.subrange(0, k + 1).drop_last() =~= to_add@.subrange(0, k as int));
        }
        let id = tree.add_child(p, pos, r);
        new_ids.push(id);
        k += 1;
    }
    proof {
        assert(to_add@.subrange(0, to_add@.len() as int) =~= to_add@);
        assert(tree@.len() == tree.nodes.len());
        assert(acc@.len() == acc.count.len());
        assert forall|j: int| 0 <= j < new_ids@.len() implies apart_from_siblings(
            tree@,
            #[trigger] new_ids@[j],
        ) by {
            lemma_growth_keeps_siblings_apart(old(tree)@, acc@, *cfg, j);
        }
        lemma_growth_only_adds(old(tree)@, acc@, *cfg);
        lemma_growth_sprouts(old(tree)@, acc@, *cfg);
    }
    new_ids
}

/// Marks as dead every live attractor that the tree has reached: one for
/// which the node at rank `cfg.kill_from_kn` lies within the kill radius.
/// Nothing else changes, and no dead attractor comes back to life.
pub fn kill_phase(tree: &Tree, attractors: &mut AttractorSet, cfg: &Config)
    ensures
        final(attractors)@.len() == old(attractors)@.len(),
        forall|i: int|
            0 <= i < old(attractors)@.len() ==> #[trigger] final(attractors)@[i] == killed(
                tree@,
                old(attractors)@[i],
                *cfg,
            ),
        forall|i: int|
            0 <= i < old(attractors)@.len() && !old(attractors)@[i].alive ==> !(
            #[trigger] final(attractors)@[i]).alive,
{
    let n: usize = attractors.points.len();
    let mut i: usize = 0;
    while i < n
        invariant
            n == old(attractors)@.len(),
            attractors@.len() == n,
            i <= n,
            forall|j: int|
                0 <= j < i ==> #[trigger] attractors@[j] == killed(
                    tree@,
                    old(attractors)@[j],
                    *cfg,
                ),
            forall|j: int| i <= j < n ==> #[trigger] attractors@[j] == old(attractors)@[j],
        decreases n - i,
    {
        if attractors.points[i].alive {
            match tree.find_kth_nearest_nodes(attractors.points[i].pos, cfg.kill_from_kn) {
                Some((_id, d2)) => {
                    if less_than(d2, cfg.kill_radius2) {
                        attractors.points[i].alive = false;
                    }
                },
                None => {},
            }
        }
        i += 1;
    }
}

/// [`owned_by`] depends on no attractor but the first `n`.
proof fn lemma_owned_by_reads_prefix(a: Seq<Attractor>, b: Seq<Attractor>, s: NodeId, n: nat)
    requires
        n <= a.len(),
        n <= b.len(),
        forall|j: int| 0 <= j < n ==> a[j] == b[j],
    ensures
        owned_by(a, s, n) == owned_by(b, s, n),
    decreases n,
{
    if n > 0 {
        lemma_owned_by_reads_prefix(a, b, s, (n - 1) as nat);
    }
}

/// One step of the simulation: attraction, then growth, then kill.
///
/// Growth reads the buffer that attraction has just rebuilt, and kill sees the
/// tree that growth has left. The indices of the nodes that growth added are
/// returned.
pub fn step_once(
    tree: &mut Tree,
    attractors: &mut AttractorSet,
    cfg: &Config,
    acc: &mut InfluenceBuffer,
) -> (new_ids: Vec<NodeId>)
    requires
        old(tree).wf(),
        old(attractors)@.len() <= u32::MAX,
    ensures
        final(acc)@ == pulls(old(tree)@, old(attractors)@, *cfg, old(attractors)@.len()),
        final(tree)@ == grown(old(tree)@, growth_plan(old(tree)@, final(acc)@, *cfg)),
        extends(old(tree)@, final(tree)@),
        sprouted(
            old(tree)@,
            final(acc)@,
            *cfg,
            growth_plan(old(tree)@, final(acc)@, *cfg),
            final(tree)@,
        ),
        final(tree).wf(),
        new_ids@.len() == growth_plan(old(tree)@, final(acc)@, *cfg).len(),
        forall|j: int| 0 <= j < new_ids@.len() ==> #[trigger] new_ids@[j] == old(tree)@.len() + j,
        final(attractors)@.len() == old(attractors)@.len(),
        forall|i: int|
            0 <= i < old(attractors)@.len() ==> #[trigger] final(attractors)@[i] == killed(
                final(tree)@,
                attracted(old(tree)@, old(attractors)@[i], *cfg),
                *cfg,
            ),
        forall|i: int|
            0 <= i < old(attractors)@.len() && !old(attractors)@[i].alive ==> !(
            #[trigger] final(attractors)@[i]).alive,
{
    attraction_phase(tree, attractors, cfg, acc);
    let new_ids = growth_phase(tree, acc, cfg);
    kill_phase(tree, attractors, cfg);
    new_ids
}

/// The children planned for ascending nodes have ascending parents, all among
/// those nodes; each lies at its parent's candidate position, which no child
/// that the parent already has is near, and has its parent's radius.
pub proof fn lemma_planned(nodes: Seq<NodeView>, acc: BufferView, cfg: Config, ids: Seq<NodeId>)
    requires
        forall|i: int, j: int| 0 <= i < j < ids.len() ==> ids[i] < ids[j],
    ensures
        forall|j: int|
            0 <= j < planned(nodes, acc, cfg, ids).len() ==> {
                let s = #[trigger] planned(nodes, acc, cfg, ids)[j];
                &&& ids.contains(s.0)
                &&& sprouts(nodes, acc, cfg, s.0)
                &&& s.1 == candidate(nodes, acc, cfg, s.0)
                &&& s.2 == nodes[s.0 as int].radius
            },
        forall|i: int, j: int|
            0 <= i < j < planned(nodes, acc, cfg, ids).len() ==> planned(nodes, acc, cfg, ids)[i].0
                < planned(nodes, acc, cfg, ids)[j].0,
        forall|i: int|
            0 <= i < ids.len() && sprouts(nodes, acc, cfg, #[trigger] ids[i]) ==> !unplanned(
                planned(nodes, acc, cfg, ids),
                ids[i] as int,
            ),
    decreases ids.len(),
{
    if ids.len() > 0 {
        let front = ids.drop_last();
        lemma_planned(nodes, acc, cfg, front);
        let before = planned(nodes, acc, cfg, front);
        let all = planned(nodes, acc, cfg, ids);
        assert forall|i: int|
            0 <= i < ids.len() && sprouts(nodes, acc, cfg, #[trigger] ids[i]) implies !unplanned(
            all,
            ids[i] as int,
        ) by {
            if i < front.len() {
                assert(front[i] == ids[i]);
                let j = choose|j: int| 0 <= j < before.len() && (#[trigger] before[j]).0 == ids[i];
                assert(all[j] == before[j]);
            } else {
                assert(all[all.len() - 1].0 == ids[i]);
            }
        }
        assert forall|j: int| 0 <= j < all.len() implies {
            let s = #[trigger] all[j];
            &&& ids.contains(s.0)
            &&& sprouts(nodes, acc, cfg, s.0)
            &&& s.1 == candidate(nodes, acc, cfg, s.0)
            &&& s.2 == nodes[s.0 as int].radius
        } by {
            if j < before.len() {
                assert(all[j] == before[j]);
                let i = choose|i: int| 0 <= i < front.len() && front[i] == before[j].0;
                assert(ids[i] == before[j].0);
            } else {
                assert(ids[ids.len() - 1] == all[j].0);
            }
        }
        assert forall|i: int, j: int| 0 <= i < j < all.len() implies all[i].0 < all[j].0 by {
            assert(all[i] == before[i]);
            if j < before.len() {
                assert(all[j] == before[j]);
            } else {
                let a = choose|a: int| 0 <= a < front.len() && front[a] == before[i].0;
                assert(ids[a] < ids[ids.len() - 1]);
            }
        }
    }
}

/// What [`grown`] holds when every planned parent exists beforehand and the
/// parents ascend: the old nodes with their positions, radii and parents, each
/// planned parent with its one new child entered last, and the new children
/// in the order of the plan.
pub proof fn lemma_grown(nodes: Seq<NodeView>, plan: Seq<Sprout>)
    requires
        nodes.len() + plan.len() <= usize::MAX,
        forall|j: int| 0 <= j < plan.len() ==> (#[trigger] plan[j]).0 < nodes.len(),
        forall|i: int, j: int| 0 <= i < j < plan.len() ==> plan[i].0 < plan[j].0,
    ensures
        grown(nodes, plan).len() == nodes.len() + plan.len(),
        forall|j: int|
            0 <= j < plan.len() ==> #[trigger] grown(nodes, plan)[nodes.len() + j] == child_node(
                plan[j].1,
                plan[j].2,
                plan[j].0,
            ),
        forall|i: int|
            0 <= i < nodes.len() ==> {
                let g = #[trigger] grown(nodes, plan)[i];
                g.pos == nodes[i].pos && g.radius == nodes[i].radius && g.parent == nodes[i].parent
            },
        forall|i: int|
            0 <= i < nodes.len() && unplanned(plan, i) ==> (#[trigger] grown(
                nodes,
                plan,
            )[i]).children == nodes[i].children,
        forall|j: int|
            0 <= j < plan.len() ==> (#[trigger] grown(nodes, plan)[plan[j].0 as int]).children
                == nodes[plan[j].0 as int].children.push((nodes.len() + j) as usize),
    decreases plan.len(),
{
    if plan.len() > 0 {
        let front = plan.drop_last();
        let last = plan.last();
        let m = front.len() as int;
        lemma_grown(nodes, front);
        let before = grown(nodes, front);
        let all = grown(nodes, plan);
        assert(all == with_child(before, last.0, last.1, last.2));
        assert(plan[m] == last);
        assert forall|j: int| 0 <= j < front.len() implies (#[trigger] front[j]).0 != last.0 by {
            assert(front[j] == plan[j]);
        }
        assert(before[last.0 as int].children == nodes[last.0 as int].children);
        assert forall|j: int| 0 <= j < plan.len() implies #[trigger] all[nodes.len() + j]
            == child_node(plan[j].1, plan[j].2, plan[j].0) by {
            if j < m {
                assert(front[j] == plan[j]);
                assert(all[nodes.len() + j] == before[nodes.len() + j]);
            }
        }
        assert forall|i: int| 0 <= i < nodes.len() && unplanned(plan, i) implies (
        #[trigger] all[i]).children == nodes[i].children by {
            assert(plan[m].0 != i);
            assert forall|j: int| 0 <= j < front.len() implies (#[trigger] front[j]).0 != i by {
                assert(front[j] == plan[j]);
            }
            assert(all[i] == before[i]);
        }
        assert forall|j: int| 0 <= j < plan.len() implies (
        #[trigger] all[plan[j].0 as int]).children == nodes[plan[j].0 as int].children.push(
            (nodes.len() + j) as usize,
        ) by {
            if j < m {
                assert(front[j] == plan[j]);
                assert(plan[j].0 != last.0);
                assert(all[plan[j].0 as int] == before[front[j].0 as int]);
            }
        }
    }
}

/// The plan of a growth phase names each parent once, in ascending order; the
/// parents are exactly the influenced nodes that sprout, and all of them
/// exist; each planned child lies at its parent's candidate position, which
/// no child that the parent already has is near, and has its parent's radius.
pub proof fn lemma_growth_plan(nodes: Seq<NodeView>, acc: BufferView, cfg: Config)
    requires
        describes(acc, nodes.len()),
        acc.len() <= usize::MAX,
    ensures
        forall|j: int|
            0 <= j < growth_plan(nodes, acc, cfg).len() ==> {
                let s = #[trigger] growth_plan(nodes, acc, cfg)[j];
                &&& s.0 < nodes.len()
                &&& s.0 < acc.len()
                &&& acc.count[s.0 as int] > 0
                &&& sprouts(nodes, acc, cfg, s.0)
                &&& s.1 == candidate(nodes, acc, cfg, s.0)
                &&& s.2 == nodes[s.0 as int].radius
            },
        forall|i: int, j: int|
            0 <= i < j < growth_plan(nodes, acc, cfg).len() ==> growth_plan(nodes, acc, cfg)[i].0
                < growth_plan(nodes, acc, cfg)[j].0,
        forall|id: NodeId|
            id < acc.len() && acc.count[id as int] > 0 && #[trigger] sprouts(nodes, acc, cfg, id)
                ==> !unplanned(growth_plan(nodes, acc, cfg), id as int),
{
    let ids = influenced_below(acc.count, acc.len());
    let plan = growth_plan(nodes, acc, cfg);
    lemma_influenced_ascend(acc.count, acc.len());
    lemma_planned(nodes, acc, cfg, ids);
    assert forall|j: int| 0 <= j < plan.len() implies {
        let s = #[trigger] plan[j];
        s.0 < nodes.len() && s.0 < acc.len() && acc.count[s.0 as int] > 0
    } by {
        let a = choose|a: int| 0 <= a < ids.len() && ids[a] == plan[j].0;
        assert(acc.count[ids[a] as int] > 0);
    }
    assert forall|id: NodeId|
        id < acc.len() && acc.count[id as int] > 0 && #[trigger] sprouts(
            nodes,
            acc,
            cfg,
            id,
        ) implies !unplanned(plan, id as int) by {
        assert(ids.contains(id));
        let a = choose|a: int| 0 <= a < ids.len() && ids[a] == id;
        assert(sprouts(nodes, acc, cfg, ids[a]));
    }
}

/// A growth phase puts out exactly the children of its plan; see
/// [`sprouted`].
pub proof fn lemma_growth_sprouts(nodes: Seq<NodeView>, acc: BufferView, cfg: Config)
    requires
        describes(acc, nodes.len()),
        acc.len() <= usize::MAX,
        nodes.len() + growth_plan(nodes, acc, cfg).len() <= usize::MAX,
    ensures
        sprouted(
            nodes,
            acc,
            cfg,
            growth_plan(nodes, acc, cfg),
            grown(nodes, growth_plan(nodes, acc, cfg)),
        ),
{
    let plan = growth_plan(nodes, acc, cfg);
    let after = grown(nodes, plan);
    lemma_growth_plan(nodes, acc, cfg);
    lemma_grown(nodes, plan);
    assert forall|j: int| 0 <= j < plan.len() implies {
        let parent = (#[trigger] plan[j]).0;
        &&& after[nodes.len() + j] == child_node(
            candidate(nodes, acc, cfg, parent),
            nodes[parent as int].radius,
            parent,
        )
        &&& after[parent as int].children == nodes[parent as int].children.push(
            (nodes.len() + j) as usize,
        )
    } by {
        assert(after[nodes.len() + j] == child_node(plan[j].1, plan[j].2, plan[j].0));
        assert(after[plan[j].0 as int].children == nodes[plan[j].0 as int].children.push(
            (nodes.len() + j) as usize,
        ));
    }
}

/// A growth phase adds nodes and changes nothing else: the tree that it
/// leaves [`extends`] the tree that it found.
pub proof fn lemma_growth_only_adds(nodes: Seq<NodeView>, acc: BufferView, cfg: Config)
    requires
        describes(acc, nodes.len()),
        acc.len() <= usize::MAX,
        nodes.len() + growth_plan(nodes, acc, cfg).len() <= usize::MAX,
    ensures
        extends(nodes, grown(nodes, growth_plan(nodes, acc, cfg))),
{
    let plan = growth_plan(nodes, acc, cfg);
    let after = grown(nodes, plan);
    lemma_growth_plan(nodes, acc, cfg);
    lemma_grown(nodes, plan);
    assert forall|i: int| 0 <= i < nodes.len() implies nodes[i].children.is_prefix_of(
        (#[trigger] after[i]).children,
    ) by {
        if !unplanned(plan, i) {
            let j = choose|j: int| 0 <= j < plan.len() && (#[trigger] plan[j]).0 == i;
            assert(after[plan[j].0 as int].children == nodes[i].children.push(
                (nodes.len() + j) as usize,
            ));
        } else {
            assert(after[i].children == nodes[i].children);
        }
    }
}

/// A growth phase never puts a new child within the duplicate distance of
/// another child of the same parent: the `j`-th node that it adds is
/// [`apart_from_siblings`] in the tree that it leaves.
pub proof fn lemma_growth_keeps_siblings_apart(
    nodes: Seq<NodeView>,
    acc: BufferView,
    cfg: Config,
    j: int,
)
    requires
        linked(nodes),
        describes(acc, nodes.len()),
        acc.len() <= usize::MAX,
        nodes.len() + growth_plan(nodes, acc, cfg).len() <= usize::MAX,
        0 <= j < growth_plan(nodes, acc, cfg).len(),
    ensures
        apart_from_siblings(
            grown(nodes, growth_plan(nodes, acc, cfg)),
            (nodes.len() + j) as usize,
        ),
{
    let plan = growth_plan(nodes, acc, cfg);
    let after = grown(nodes, plan);
    lemma_growth_plan(nodes, acc, cfg);
    lemma_grown(nodes, plan);
    let c = (nodes.len() + j) as usize;
    let p = plan[j].0;
    assert(after[c as int] == child_node(plan[j].1, plan[j].2, p));
    assert(after[p as int].children == nodes[p as int].children.push(c));
    assert(sprouts(nodes, acc, cfg, p));
    assert forall|i: int|
        0 <= i < after[p as int].children.len() && after[p as int].children[i] != c implies {
        let sibling = #[trigger] after[p as int].children[i];
        !less(dist_squared(after[sibling as int].pos, after[c as int].pos), DUPLICATE_EPS2)
    } by {
        let o = nodes[p as int].children[i];
        assert(after[p as int].children[i] == o);
        assert(node_linked(nodes, p as int));
        assert(after[o as int].pos == nodes[o as int].pos);
    }
}

} // verus!
