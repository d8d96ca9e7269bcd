//! An octree on the integer grid: a spatial index that stores items by a
//! representative point and answers visibility queries against a view frustum.
//!
//! A tree covers a volume that is fixed when the tree is made. It takes the
//! items whose index point lies in that volume and never gives one up. A
//! node that has to keep two different items is split into its eight octants,
//! down to a side of [`volume::MIN_SIDE`]; what cannot be kept apart there is
//! held in one list. A query walks every node and returns the items that the
//! frustum does not leave out.
//!
//! One unit of the grid stands for one unit of the scene. What an item is,
//! and what a frustum is, is up to the user: see [`item::OctreeItem`].
//!
//! - [`volume`]: points, volumes, and the octants of a volume;
//! - [`item`]: what a stored value must offer;
//! - [`cell`]: the model of a node, over which all contracts are stated;
//! - [`octreenode`]: the nodes with insertion, the walk, and the queries;
//! - [`octree`]: the tree;
//! - [`guarantees`]: what holds of every tree;
//! - [`sequences`]: facts about sequences that the proofs lean on.

pub mod sequences;
pub mod volume;
pub mod item;
pub mod cell;
pub mod octreenode;
pub mod octree;
pub mod guarantees;
