//! Growth engine of a two-dimensional space colonization simulation.
//!
//! A tree of nodes grows toward a cloud of attractors. Each step runs three
//! phases in a fixed order: attraction, in which every live attractor pulls
//! on one node of the tree; growth, in which every node that is pulled on
//! puts out a child in the mean direction of the pull; and kill, in which the
//! attractors that the tree has reached are consumed.
//!
//! # What is proved and what is not
//!
//! The engine's bookkeeping is verified: the links of the tree, the rank
//! queries, the counts and sums of the influence buffer, which attractor is
//! owned by which node and which one dies, and where the growth phase puts
//! its nodes. The arithmetic on positions is `glam`'s. This crate carries a
//! position as an opaque `glam::Vec2`, calls `glam` for every operation on
//! it, and names the results in its contracts; see [`geometry`]. The one
//! thing it looks at is a scalar that an operation hands out, such as a
//! squared distance: that is held as the bit pattern of its binary32 number,
//! and compared by the integer arithmetic of [`order`]. Scalars that come in
//! from outside, such as a radius, are bit patterns too. A squared distance
//! that is a NaN is always held as one and the same pattern, so that which
//! NaN the machine produced decides nothing.
//!
//! # Modules
//!
//! - [`types`]: the node handle.
//! - [`geometry`]: the calls into `glam` and their names.
//! - [`order`]: comparisons of binary32 numbers by their bits.
//! - [`rank`]: nearest and k-th nearest among distances.
//! - [`tree`]: the tree.
//! - [`attractor`]: the attractors.
//! - [`influence_buffer`]: the pull on each node.
//! - [`config`]: the parameters.
//! - [`phases`]: attraction, growth, kill, and the step that runs all three.
pub mod attractor;
pub mod config;
pub mod geometry;
pub mod influence_buffer;
pub mod order;
pub mod phases;
pub mod rank;
pub mod tree;
pub mod types;
