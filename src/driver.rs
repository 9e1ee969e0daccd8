//! The loop that alternates the two sides of a game until it is over.
use vstd::prelude::*;
use rand::rngs::StdRng;
use crate::game::{Game, Move, TwoPlayerGame, state_after, legal_line, lemma_line_push};
use crate::player::opponent_of;
use crate::player::Player;
use crate::search::search;

verus! {

/// A side played by the engine: its random source and its search budget.
pub struct ComputerPlayer {
    rng: StdRng,
    nb_iter: usize,
    bias: u32,
}

impl ComputerPlayer {
    /// The search budget can be spent: at least one iteration.
    pub closed spec fn valid(&self) -> bool {
        0 < self.nb_iter < 0x8000_0000_0000_0000
    }

    /// The search budget: iterations, and exploration bias in thousandths.
    pub closed spec fn budget(&self) -> (usize, u32) {
        (self.nb_iter, self.bias)
    }

    /// Creates an engine player that searches `nb_iter` iterations with the
    /// exploration `bias` (in thousandths).
    pub fn new(rng: StdRng, nb_iter: usize, bias: u32) -> (r: ComputerPlayer)
        requires
            0 < nb_iter < 0x8000_0000_0000_0000,
        ensures
            r.valid(),
            r.budget() == (nb_iter, bias),
    {
        ComputerPlayer { rng, nb_iter, bias }
    }
}

/// Who chooses the moves of one side.
pub enum Controller {
    /// A person, asked by the surrounding program.
    Human,
    /// The engine.
    Computer(ComputerPlayer),
}

impl Controller {
    /// The engine's budget, or `None` for a person.
    pub open spec fn settings(&self) -> Option<(usize, u32)> {
        match self {
            Controller::Human => None,
            Controller::Computer(c) => Some(c.budget()),
        }
    }

    /// An engine controller has a budget it can spend.
    pub open spec fn valid(&self) -> bool {
        match self {
            Controller::Human => true,
            Controller::Computer(c) => c.valid(),
        }
    }
}

/// Of the moves `ms` played from `from`, the `k`-th is the only legal move
/// whenever there is only one.
pub open spec fn single_move_kept<G: TwoPlayerGame<M>, M: Move>(from: Game<G, M>, ms: Seq<M>, k: int) -> bool {
    let s = state_after(from, ms.take(k));
    s.moves().len() == 1 ==> ms[k] == s.moves()[0]
}

/// A game between two sides.
pub struct App<G: TwoPlayerGame<M>, M: Move> {
    game: Game<G, M>,
    white: Controller,
    black: Controller,
}

impl<G: TwoPlayerGame<M>, M: Move> App<G, M> {
    /// The state of the game.
    pub closed spec fn state(&self) -> Game<G, M> {
        self.game
    }

    /// The controller of `p`.
    pub closed spec fn controller(&self, p: Player) -> Controller {
        match p {
            Player::White => self.white,
            Player::Black => self.black,
        }
    }

    /// Both controllers are valid.
    pub open spec fn wf(&self) -> bool {
        self.controller(Player::White).valid() && self.controller(Player::Black).valid()
    }

    /// Creates a game on `board`, White to move.
    pub fn new(board: G, white: Controller, black: Controller) -> (r: Self)
        ensures
            r.state() == Game::<G, M>::start(board),
            r.state().board() == board,
            r.state().turn() == Player::White,
            r.controller(Player::White) == white,
            r.controller(Player::Black) == black,
    {
        let r = App { game: Game::new(board), white, black };
        proof {
            Game::<G, M>::lemma_start(board);
        }
        r
    }

    /// Returns the state of the game.
    pub fn game(&self) -> (r: &Game<G, M>)
        ensures
            *r == self.state(),
    {
        &self.game
    }

    /// Chooses the next move without asking anyone, where that can be done:
    /// the only legal move when there is exactly one (the engine is not
    /// consulted, and nothing changes), else the engine's choice when the
    /// engine plays the side to move. Returns `None` when a person must
    /// choose. The game itself is left as it is.
    pub fn next_move(&mut self) -> (r: Option<M>)
        requires
            old(self).wf(),
            !old(self).state().over(),
        ensures
            final(self).wf(),
            final(self).state() == old(self).state(),
            final(self).controller(Player::White) is Human <==> old(self).controller(Player::White) is Human,
            final(self).controller(Player::Black) is Human <==> old(self).controller(Player::Black) is Human,
            final(self).controller(Player::White).settings() == old(self).controller(Player::White).settings(),
            final(self).controller(Player::Black).settings() == old(self).controller(Player::Black).settings(),
            old(self).state().moves().len() == 1 ==> r == Some(old(self).state().moves()[0]) && *final(self) == *old(self),
            r is Some ==> old(self).state().moves().contains(r->0),
            r is None <==> (old(self).state().moves().len() != 1
                && old(self).controller(old(self).state().turn()) is Human),
    {
        let mut moves = self.game.possible_moves();
        if moves.len() == 1 {
            let m = moves.pop().unwrap();
            proof {
                assert(self.game.moves().contains(m)) by {
                    assert(self.game.moves()[0] == m);
                }
            }
            return Some(m);
        }
        let turn = self.game.current_player();
        let controller = match turn {
            Player::White => &mut self.white,
            Player::Black => &mut self.black,
        };
        match controller {
            Controller::Human => None,
            Controller::Computer(c) => {
                let m = search(&self.game, &mut c.rng, c.nb_iter, c.bias);
                Some(m)
            },
        }
    }

    /// Plays the legal move `m` for the side to move.
    pub fn play(&mut self, m: &M)
        requires
            old(self).state().moves().contains(*m),
        ensures
            final(self).state() == old(self).state().next(*m),
            final(self).state().board() == old(self).state().board().after(old(self).state().turn(), *m),
            final(self).state().turn() == opponent_of(old(self).state().turn()),
            final(self).controller(Player::White) == old(self).controller(Player::White),
            final(self).controller(Player::Black) == old(self).controller(Player::Black),
    {
        self.game.play(m);
    }

    /// Plays the game to its end with no input or output, and returns the
    /// winner, or `None` for a draw. Both sides must be played by the engine.
    pub fn run_quiet(&mut self) -> (r: Option<Player>)
        requires
            old(self).wf(),
            old(self).controller(Player::White) is Computer,
            old(self).controller(Player::Black) is Computer,
        ensures
            final(self).state().over(),
            r == final(self).state().board().winner_of(),
            final(self).controller(Player::White).settings() == old(self).controller(Player::White).settings(),
            final(self).controller(Player::Black).settings() == old(self).controller(Player::Black).settings(),
            exists|ms: Seq<M>| {
                &&& #[trigger] legal_line(old(self).state(), ms)
                &&& state_after(old(self).state(), ms) == final(self).state()
                &&& forall|k: int| 0 <= k < ms.len() ==> #[trigger] single_move_kept(old(self).state(), ms, k)
            },
    {
        let ghost start = self.state();
        let ghost white = self.controller(Player::White).settings();
        let ghost black = self.controller(Player::Black).settings();
        let ghost mut line: Seq<M> = Seq::empty();
        proof {
            assert(state_after(start, line) == start);
        }
        while !self.game.is_over()
            invariant
                self.wf(),
                self.controller(Player::White) is Computer,
                self.controller(Player::Black) is Computer,
                self.controller(Player::White).settings() == white,
                self.controller(Player::Black).settings() == black,
                legal_line(start, line),
                state_after(start, line) == self.state(),
                forall|k: int| 0 <= k < line.len() ==> #[trigger] single_move_kept(start, line, k),
            decreases self.state().board().horizon(),
        {
            let chosen = self.next_move();
            match chosen {
                Some(m) => {
                    proof {
                        self.game.lemma_next_shortens(m);
                        let old_line = line;
                        lemma_line_push(start, old_line, m);
                        line = old_line.push(m);
                        assert forall|k: int| 0 <= k < line.len() implies #[trigger] single_move_kept(start, line, k) by {
                            if k < old_line.len() {
                                assert(line.take(k) =~= old_line.take(k));
                                assert(single_move_kept(start, old_line, k));
                            } else {
                                assert(line.take(k) =~= old_line);
                            }
                        }
                    }
                    self.game.play(&m);
                },
                None => {
                    proof {
                        assert(self.controller(self.state().turn()) is Computer) by {
                            match self.state().turn() {
                                Player::White => {},
                                Player::Black => {},
                            }
                        }
                    }
                },
            }
        }
        proof {
            assert(legal_line(start, line));
        }
        self.game.winner()
    }
}

} // verus!
