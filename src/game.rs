use vstd::prelude::*;
use vstd::pervasive::strictly_cloned;
use crate::player::{Player, opponent_of};

verus! {

/// A move of some game: an opaque token that the engine compares, moves
/// around, and never inspects. Its default value is the placeholder that
/// stands for "no move" at the root of a search tree.
pub trait Move: Clone + Default {}

/// A partial game state for a two-player game: the board alone, without the
/// knowledge of whose turn it is.
///
/// This is the trait that a game implements so that the engine can play it.
pub trait TwoPlayerGame<M: Move>: Clone + Sized {
    /// The legal moves of `p` in this position, in the order the board lists them.
    spec fn moves_of(&self, p: Player) -> Seq<M>;

    /// The position after `p` plays `m`.
    spec fn after(&self, p: Player, m: M) -> Self;

    /// The winner of a finished position, or `None` for a draw.
    spec fn winner_of(&self) -> Option<Player>;

    /// A bound on the number of moves that can still be played from here.
    spec fn horizon(&self) -> nat;

    /// Every legal move brings the game closer to its end, so that a game
    /// played out move by move always stops.
    proof fn lemma_play_shortens(&self, p: Player, m: M)
        requires
            self.moves_of(p).contains(m),
        ensures
            self.after(p, m).horizon() < self.horizon(),
    ;

    /// A clone of a position is the same position.
    proof fn lemma_clone_is_exact(&self, c: Self)
        requires
            strictly_cloned(*self, c),
        ensures
            c == *self,
    ;

    /// Appends every legal move of `p` to `moves`, and nothing if there is none.
    fn possible_moves_in(&self, p: Player, moves: &mut Vec<M>)
        ensures
            final(moves)@ == old(moves)@ + self.moves_of(p),
    ;

    /// Plays the legal move `m` as `p`.
    fn play(&mut self, p: Player, m: &M)
        requires
            old(self).moves_of(p).contains(*m),
        ensures
            *final(self) == old(self).after(p, *m),
    ;

    /// Returns the winner of a finished game, or `None` for a draw.
    fn winner(&self) -> (r: Option<Player>)
        requires
            self.moves_of(Player::White).len() == 0 || self.moves_of(Player::Black).len() == 0,
        ensures
            r == self.winner_of(),
    ;

    /// Returns the legal moves of `p` in a new vector.
    fn possible_moves(&self, p: Player) -> (r: Vec<M>)
        ensures
            r@ == self.moves_of(p),
    {
        let mut moves = Vec::new();
        self.possible_moves_in(p, &mut moves);
        proof {
            assert(moves@ =~= Seq::<M>::empty() + self.moves_of(p));
        }
        moves
    }
}

/// A complete game state: a board and the player whose turn it is.
pub struct Game<G: TwoPlayerGame<M>, M: Move> {
    inner: G,
    current_player: Player,
    move_type: std::marker::PhantomData<M>,
}

impl<G: TwoPlayerGame<M>, M: Move> Game<G, M> {
    /// The board.
    pub closed spec fn board(&self) -> G {
        self.inner
    }

    /// The player to move.
    pub closed spec fn turn(&self) -> Player {
        self.current_player
    }

    /// The legal moves of the player to move.
    pub open spec fn moves(&self) -> Seq<M> {
        self.board().moves_of(self.turn())
    }

    /// The game is over when the player to move has no legal move.
    pub open spec fn over(&self) -> bool {
        self.moves().len() == 0
    }

    /// The state after the player to move plays `m`: the board changes and
    /// the turn passes to the opponent.
    pub closed spec fn next(&self, m: M) -> Self {
        Game {
            inner: self.inner.after(self.current_player, m),
            current_player: opponent_of(self.current_player),
            move_type: std::marker::PhantomData,
        }
    }

    /// The state of a fresh game on `board`, White to move.
    pub closed spec fn start(board: G) -> Self {
        Game { inner: board, current_player: Player::White, move_type: std::marker::PhantomData }
    }

    /// A fresh game has White to move on the given board.
    pub proof fn lemma_start(board: G)
        ensures
            Self::start(board).board() == board,
            Self::start(board).turn() == Player::White,
    {
    }

    /// A move changes the board as the player to move plays it, and passes
    /// the turn.
    pub proof fn lemma_next(&self, m: M)
        ensures
            self.next(m).board() == self.board().after(self.turn(), m),
            self.next(m).turn() == opponent_of(self.turn()),
    {
    }

    /// A legal move brings the game closer to its end.
    pub proof fn lemma_next_shortens(&self, m: M)
        requires
            self.moves().contains(m),
        ensures
            self.next(m).board().horizon() < self.board().horizon(),
    {
        self.inner.lemma_play_shortens(self.current_player, m);
    }

    /// Creates a complete game from the given board, White to move.
    pub fn new(inner: G) -> (r: Self)
        ensures
            r == Self::start(inner),
            r.board() == inner,
            r.turn() == Player::White,
    {
        Game { inner, current_player: Player::White, move_type: std::marker::PhantomData }
    }

    /// Plays the given move as the player to move, then passes the turn.
    ///
    /// The move must be one of `possible_moves()`.
    pub fn play(&mut self, m: &M)
        requires
            old(self).moves().contains(*m),
        ensures
            *final(self) == old(self).next(*m),
            final(self).board() == old(self).board().after(old(self).turn(), *m),
            final(self).turn() == opponent_of(old(self).turn()),
    {
        self.inner.play(self.current_player, m);
        self.current_player = self.current_player.opponent();
    }

    /// Returns the legal moves of the player to move.
    pub fn possible_moves(&self) -> (r: Vec<M>)
        ensures
            r@ == self.moves(),
    {
        self.inner.possible_moves(self.current_player)
    }

    /// Returns true when the player to move has no legal move.
    pub fn is_over(&self) -> (r: bool)
        ensures
            r == self.over(),
    {
        let moves = self.inner.possible_moves(self.current_player);
        moves.len() == 0
    }

    /// Returns the winner of a finished game, or `None` for a draw.
    pub fn winner(&self) -> (r: Option<Player>)
        requires
            self.over(),
        ensures
            r == self.board().winner_of(),
    {
        self.inner.winner()
    }

    /// Returns the player to move.
    pub fn current_player(&self) -> (r: Player)
        ensures
            r == self.turn(),
    {
        self.current_player
    }

    /// Returns the board.
    pub fn inner(&self) -> (r: &G)
        ensures
            *r == self.board(),
    {
        &self.inner
    }
}

/// The state reached from `from` by playing the moves `ms` in turn.
pub open spec fn state_after<G: TwoPlayerGame<M>, M: Move>(from: Game<G, M>, ms: Seq<M>) -> Game<G, M>
    decreases ms.len(),
{
    if ms.len() == 0 {
        from
    } else {
        state_after(from, ms.drop_last()).next(ms.last())
    }
}

/// Each of the moves `ms`, played in turn from `from`, is legal when it is played.
pub open spec fn legal_line<G: TwoPlayerGame<M>, M: Move>(from: Game<G, M>, ms: Seq<M>) -> bool
    decreases ms.len(),
{
    if ms.len() == 0 {
        true
    } else {
        legal_line(from, ms.drop_last()) && state_after(from, ms.drop_last()).moves().contains(ms.last())
    }
}

/// `to` is reached from `from` by legal moves, one per turn.
pub open spec fn reachable<G: TwoPlayerGame<M>, M: Move>(from: Game<G, M>, to: Game<G, M>) -> bool {
    exists|ms: Seq<M>| #[trigger] legal_line(from, ms) && state_after(from, ms) == to
}

/// Extending a legal line by a legal move gives a legal line to the next state.
pub proof fn lemma_line_push<G: TwoPlayerGame<M>, M: Move>(from: Game<G, M>, ms: Seq<M>, m: M)
    requires
        legal_line(from, ms),
        state_after(from, ms).moves().contains(m),
    ensures
        legal_line(from, ms.push(m)),
        state_after(from, ms.push(m)) == state_after(from, ms).next(m),
{
    assert(ms.push(m).drop_last() =~= ms);
}

/// After an even number of moves the same side is to move; after an odd
/// number, the other side.
pub proof fn lemma_turn_after<G: TwoPlayerGame<M>, M: Move>(from: Game<G, M>, ms: Seq<M>)
    ensures
        state_after(from, ms).turn() == if ms.len() % 2 == 0 { from.turn() } else { opponent_of(from.turn()) },
    decreases ms.len(),
{
    if ms.len() > 0 {
        lemma_turn_after(from, ms.drop_last());
        state_after(from, ms.drop_last()).lemma_next(ms.last());
    }
}

impl<G: TwoPlayerGame<M>, M: Move> Clone for Game<G, M> {
    fn clone(&self) -> (r: Self)
        ensures
            r == *self,
    {
        let inner = self.inner.clone();
        proof {
            self.inner.lemma_clone_is_exact(inner);
        }
        Game { inner, current_player: self.current_player, move_type: std::marker::PhantomData }
    }
}

} // verus!
