use vstd::prelude::*;
use rand::rngs::StdRng;
use crate::game::{Game, Move, TwoPlayerGame};
use crate::tree::Tree;

verus! {

/// Determines the move to play in `game`: grows a search tree from `game`
/// with `nb_iter` iterations, exploring with `bias` (in thousandths), and
/// returns the move of the root's child with the best win ratio (of equal
/// ratios, the child expanded first).
///
/// The game must not be over. With a generator seeded alike, the same game,
/// iteration count and bias give the same move.
pub fn search<G: TwoPlayerGame<M>, M: Move>(game: &Game<G, M>, rng: &mut StdRng, nb_iter: usize, bias: u32) -> (r: M)
    requires
        game.moves().len() > 0,
        nb_iter > 0,
        nb_iter < 0x8000_0000_0000_0000,
    ensures
        game.moves().contains(r),
        exists|t: Tree<G, M>| {
            &&& #[trigger] t.wf()
            &&& t.position(0) == *game
            &&& t.visit_count(0) == nb_iter
            &&& t.visit_sum(t.children_of(0)) == nb_iter
            &&& exists|j: int| #[trigger] t.is_best_ranked(j) && r == t.move_of(t.children_of(0)[j] as int)
        },
{
    let tree = Tree::build(game, rng, nb_iter, bias);
    let ghost grown = tree;
    let r = tree.into_best_move();
    proof {
        assert(grown.wf());
    }
    r
}

} // verus!
