//! Attractors: the points that pull on the tree and are consumed by it.
use vstd::prelude::*;
use glam::Vec2;
use crate::types::NodeId;

verus! {

/// A target point.
#[derive(Debug)]
pub struct Attractor {
    /// Where the attractor lies.
    pub pos: Vec2,
    /// Whether it still takes part. Starts true; once false it stays false.
    pub alive: bool,
    /// The node it pulled on in the latest attraction phase, if any.
    pub owner: Option<NodeId>,
}

/// The attractors of a simulation. Entries are added, never removed: a dead
/// attractor stays in place.
#[derive(Debug)]
pub struct AttractorSet {
    pub points: Vec<Attractor>,
}

impl View for AttractorSet {
    type V = Seq<Attractor>;

    /// The attractors in order.
    open spec fn view(&self) -> Seq<Attractor> {
        self.points@
    }
}

/// An attractor as it starts out: alive and without an owner.
pub open spec fn fresh(pos: Vec2) -> Attractor {
    Attractor { pos, alive: true, owner: None }
}

impl AttractorSet {
    /// One fresh attractor for each position, in the order given.
    pub fn from_positions(positions: Vec<Vec2>) -> (set: Self)
        ensures
            set@.len() == positions@.len(),
            forall|i: int| 0 <= i < positions@.len() ==> #[trigger] set@[i] == fresh(positions@[i]),
    {
        let n: usize = positions.len();
        let mut points: Vec<Attractor> = Vec::with_capacity(n);
        let mut i: usize = 0;
        while i < n
            invariant
                n == positions@.len(),
                i <= n,
                points@.len() == i,
                forall|j: int| 0 <= j < i ==> #[trigger] points@[j] == fresh(positions@[j]),
            decreases n - i,
        {
            points.push(Attractor { pos: positions[i], alive: true, owner: None });
            i += 1;
        }
        Self { points }
    }
}

} // verus!
