//! Where the walk of one deal takes place: on the public tree, or in a game that
//! was compiled for the deal.
use vstd::prelude::*;

use crate::arena::{public_error, public_shape_of, ArenaError, MultiwayHoldemPublicProfile};
use crate::batch::BatchError;
use crate::compile::tree_in_order;
use crate::holdem::MultiwayCompiledHoldemGame;
use crate::multiway_walk::{multiway_shape, multiway_shape_of};
use crate::tree::GameTree;
use crate::walk::{samples, shape_targets, Shape};

verus! {

/// The place of a walk.
#[derive(Debug)]
pub enum Stage<'a> {
    Public(&'a MultiwayHoldemPublicProfile),
    Compiled(&'a MultiwayCompiledHoldemGame),
}

impl<'a> Stage<'a> {
    pub open spec fn wf(self) -> bool {
        match self {
            Stage::Public(profile) => profile.wf(),
            Stage::Compiled(_) => true,
        }
    }

    /// Why a walk cannot enter a node.
    pub open spec fn error(self, tree: GameTree, node: usize) -> Option<BatchError> {
        match self {
            Stage::Public(profile) => match public_error(tree, profile.hands@, node) {
                Some(error) => Some(BatchError::Arena(error)),
                None => None,
            },
            Stage::Compiled(compiled) => if node >= compiled.game.nodes@.len() {
                Some(BatchError::Arena(ArenaError::UnknownNode { node }))
            } else {
                None
            },
        }
    }

    /// What `shape` says of a node: on the public tree its outcomes are those that
    /// the hands leave open.
    pub open spec fn has_shape(self, tree: GameTree, node: usize, shape: Shape) -> bool {
        match self {
            Stage::Public(profile) => public_shape_of(
                tree.nodes@[node as int],
                profile.hands@,
                shape,
            ),
            Stage::Compiled(compiled) => multiway_shape_of(
                compiled.game.nodes@[node as int],
                shape,
            ),
        }
    }

    /// A node that is sampled has one threshold for each target.
    pub open spec fn thresholds_match(
        self,
        tree: GameTree,
        node: usize,
        traverser: usize,
        thresholds: Seq<u64>,
    ) -> bool {
        forall|shape: Shape| #[trigger]
            self.has_shape(tree, node, shape) && samples(shape, traverser) ==> thresholds.len() > 0
                && thresholds.len() == shape_targets(shape).len()
    }

    /// The node at which the walk starts.
    pub fn root(&self, tree: &GameTree) -> (root: usize)
        ensures
            root == match *self {
                Stage::Public(_) => tree.root,
                Stage::Compiled(compiled) => compiled.game.root,
            },
    {
        match self {
            Stage::Public(_) => tree.root,
            Stage::Compiled(compiled) => compiled.game.root,
        }
    }

    /// The shape of a node.
    pub fn shape(&self, tree: &GameTree, node: usize) -> (result: Result<Shape, BatchError>)
        requires
            self.wf(),
            tree_in_order(*tree),
        ensures
            match self.error(*tree, node) {
                Some(error) => result == Err::<Shape, BatchError>(error),
                None => result matches Ok(shape) && self.has_shape(*tree, node, shape),
            },
    {
        match self {
            Stage::Public(profile) => match profile.shape(tree, node) {
                Ok(shape) => Ok(shape),
                Err(error) => Err(BatchError::Arena(error)),
            },
            Stage::Compiled(compiled) => match multiway_shape(&compiled.game, node) {
                Ok(shape) => Ok(shape),
                Err(_) => Err(BatchError::Arena(ArenaError::UnknownNode { node })),
            },
        }
    }
}

} // verus!
