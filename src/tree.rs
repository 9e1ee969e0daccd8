//! The statistical search tree of Monte Carlo Tree Search.
//!
//! The tree is an arena: node `0` is the root, and a node's children are
//! listed by index, in the order in which they were expanded. A child always
//! has a larger index than its parent. Scores are counted in half points:
//! a win is worth 2, a draw 1 and a loss 0, from the point of view of the
//! player who made the node's move.
use vstd::prelude::*;
use vstd::multiset::Multiset;
use rand::rngs::StdRng;
use crate::player::{Player, opponent_of};
use crate::game::{Game, Move, TwoPlayerGame, state_after, legal_line, reachable, lemma_line_push};
use crate::random::{shuffle_in_place, pick};
use crate::fixed::{SCALE, sqrt_floor, ln_fixed, isqrt, ln};

verus! {

/// What one outcome is worth to `p`, in half points.
pub open spec fn points(w: Option<Player>, p: Player) -> nat {
    match w {
        Some(x) => if x == p { 2 } else { 0 },
        None => 1,
    }
}

/// The UCB1 value `score / visits + bias * sqrt(2 * ln(parent_visits) / visits)`
/// in fixed point, for a score in half points and a bias in thousandths.
pub open spec fn ucb1(score: nat, visits: nat, parent_visits: nat, bias: nat) -> nat {
    score * (SCALE as nat) / (2 * visits)
        + bias * sqrt_floor(2 * ln_fixed(parent_visits) * (SCALE as nat) / visits) / 1000
}

/// One vertex of the search tree, without its statistics.
struct Node<M: Move> {
    last_move: M,
    children: Vec<usize>,
    untried_moves: Vec<M>,
    last_player: Player,
}

/// A search tree grown from one game state.
pub struct Tree<G: TwoPlayerGame<M>, M: Move> {
    nodes: Vec<Node<M>>,
    visits: Vec<u64>,
    scores: Vec<u128>,
    positions: Ghost<Seq<Game<G, M>>>,
    parents: Ghost<Seq<int>>,
}

proof fn lemma_push_contains<A>(s: Seq<A>, a: A, b: A)
    ensures
        s.push(a).contains(b) == (s.contains(b) || a == b),
{
    if s.contains(b) {
        let k = choose|k: int| 0 <= k < s.len() && s[k] == b;
        assert(s.push(a)[k] == b);
    }
    if a == b {
        assert(s.push(a)[s.len() as int] == b);
    }
    if s.push(a).contains(b) {
        let k = choose|k: int| 0 <= k < s.push(a).len() && s.push(a)[k] == b;
        if k < s.len() {
            assert(s[k] == b);
        }
    }
}

proof fn lemma_add_empty<A>(m: Multiset<A>, s: Seq<A>)
    requires
        s.len() == 0,
    ensures
        m.add(s.to_multiset()) == m,
{
    broadcast use vstd::seq_lib::group_to_multiset_ensures;
    assert(s.to_multiset() =~= Multiset::empty());
    assert(m.add(Multiset::empty()) =~= m);
}

/// Moving `x` from the end of `a` to the end of `b` keeps their union.
proof fn lemma_multiset_move<A>(a: Seq<A>, b: Seq<A>, x: A)
    ensures
        a.to_multiset().add(b.push(x).to_multiset()) == a.push(x).to_multiset().add(b.to_multiset()),
{
    broadcast use vstd::seq_lib::group_to_multiset_ensures;
    assert(a.to_multiset().add(b.push(x).to_multiset()) =~= a.push(x).to_multiset().add(b.to_multiset()));
}

proof fn lemma_permutation_contains<A>(a: Seq<A>, b: Seq<A>, k: int)
    requires
        a.to_multiset() == b.to_multiset(),
        0 <= k < a.len(),
    ensures
        b.contains(a[k]),
{
    a.to_multiset_ensures();
    b.to_multiset_ensures();
    assert(a.contains(a[k]));
    assert(a.to_multiset().count(a[k]) > 0);
    assert(b.to_multiset().count(a[k]) > 0);
}

/// Plays uniformly random legal moves from `game` until the player to move
/// has none, and returns the winner of the final position.
fn rollout<G: TwoPlayerGame<M>, M: Move>(game: &mut Game<G, M>, rng: &mut StdRng) -> (w: Option<Player>)
    ensures
        final(game).over(),
        w == final(game).board().winner_of(),
        reachable(*old(game), *final(game)),
        old(game).over() ==> *final(game) == *old(game),
{
    let ghost start = *game;
    let ghost mut line: Seq<M> = Seq::empty();
    proof {
        assert(state_after(start, line) == start);
    }
    let mut moves = game.possible_moves();
    while moves.len() > 0
        invariant
            moves@ == game.moves(),
            legal_line(start, line),
            state_after(start, line) == *game,
            start.over() ==> *game == start,
        decreases game.board().horizon(),
    {
        match pick(rng, &moves) {
            Some(m) => {
                proof {
                    game.lemma_next_shortens(*m);
                    lemma_line_push(start, line, *m);
                    line = line.push(*m);
                }
                game.play(m);
            },
            None => {},
        }
        moves = game.possible_moves();
    }
    proof {
        assert(legal_line(start, line) && state_after(start, line) == *game);
    }
    game.winner()
}

proof fn lemma_ratio_transitive<G: TwoPlayerGame<M>, M: Move>(t: &Tree<G, M>, x: int, y: int, z: int)
    requires
        t.wf(),
        0 <= x < t.children_of(0).len(),
        0 <= y < t.children_of(0).len(),
        0 <= z < t.children_of(0).len(),
    ensures
        t.ratio_above(z, y) && !t.ratio_above(x, y) ==> t.ratio_above(z, x),
{
    let a = t.children_of(0)[x] as int;
    let b = t.children_of(0)[y] as int;
    let c = t.children_of(0)[z] as int;
    assert(t.shape_ok(0));
    assert(t.stats_ok(a));
    assert(t.stats_ok(b));
    assert(t.stats_ok(c));
    let (sa, va) = (t.score_of(a) as int, t.visit_count(a) as int);
    let (sb, vb) = (t.score_of(b) as int, t.visit_count(b) as int);
    let (sc, vc) = (t.score_of(c) as int, t.visit_count(c) as int);
    if sc * vb > sb * vc && sa * vb <= sb * va {
        assert(sc * va > sa * vc) by (nonlinear_arith)
            requires sc * vb > sb * vc, sa * vb <= sb * va, va > 0, vb > 0, vc > 0, sa >= 0, sb >= 0, sc >= 0;
    }
}

/// The UCB1 value of a child with `score` half points over `visits` visits,
/// under a parent with `parent_visits` visits, for the exploration `bias` in
/// thousandths, in fixed point.
pub fn ucb(score: u128, visits: u64, parent_visits: u64, bias: u32) -> (r: u128)
    requires
        visits >= 1,
        parent_visits >= 1,
        score <= 2 * visits,
    ensures
        r == ucb1(score as nat, visits as nat, parent_visits as nat, bias as nat),
{
    assert(score * (SCALE as u128) <= 0x3_ffff_ffff_ffff_ffffu128 * (SCALE as u128)) by (nonlinear_arith)
        requires score <= 0x3_ffff_ffff_ffff_ffffu128;
    let exploit: u128 = score * (SCALE as u128) / (2 * visits as u128);
    let l: u64 = ln(parent_visits);
    let radicand: u64 = 2 * l * SCALE / visits;
    let root: u64 = isqrt(radicand);
    proof {
        crate::fixed::lemma_sqrt_floor_le(radicand as nat);
    }
    assert(bias as u128 * root as u128 <= 0xffff_ffffu128 * 0xffff_ffff_ffff_ffffu128) by (nonlinear_arith)
        requires bias <= 0xffff_ffffu32, root <= 0xffff_ffff_ffff_ffffu64;
    let explore: u128 = bias as u128 * root as u128 / 1000;
    assert(exploit <= score * (SCALE as u128)) by (nonlinear_arith)
        requires exploit == score * (SCALE as u128) / (2 * visits as u128), visits >= 1;
    assert(explore <= bias as u128 * root as u128);
    exploit + explore
}

impl<G: TwoPlayerGame<M>, M: Move> Tree<G, M> {
    /// The number of nodes.
    pub closed spec fn size(&self) -> nat {
        self.nodes@.len()
    }

    /// The number of rollouts that passed through node `i`.
    pub closed spec fn visit_count(&self, i: int) -> nat {
        self.visits@[i] as nat
    }

    /// The accumulated score of node `i`, in half points.
    pub closed spec fn score_of(&self, i: int) -> nat {
        self.scores@[i] as nat
    }

    /// The player credited with the move that led to node `i`.
    pub closed spec fn player_of(&self, i: int) -> Player {
        self.nodes@[i].last_player
    }

    /// The move that led to node `i`.
    pub closed spec fn move_of(&self, i: int) -> M {
        self.nodes@[i].last_move
    }

    /// The children of node `i`, in the order of their expansion.
    pub closed spec fn children_of(&self, i: int) -> Seq<usize> {
        self.nodes@[i].children@
    }

    /// The game state at node `i`.
    pub closed spec fn position(&self, i: int) -> Game<G, M> {
        self.positions@[i]
    }

    /// The moves that led to the children of node `i`, in expansion order.
    pub closed spec fn child_moves(&self, i: int) -> Seq<M> {
        Seq::new(self.nodes@[i].children@.len(), |k: int| self.nodes@[self.nodes@[i].children@[k] as int].last_move)
    }

    closed spec fn shape_ok(&self, i: int) -> bool {
        let n = self.nodes@[i];
        let pos = self.positions@[i];
        &&& n.last_player == opponent_of(pos.turn())
        &&& n.untried_moves@.len() + n.children@.len() == pos.moves().len()
        &&& n.untried_moves@.to_multiset().add(self.child_moves(i).to_multiset()) == pos.moves().to_multiset()
        &&& forall|k: int| 0 <= k < n.untried_moves@.len() ==> pos.moves().contains(#[trigger] n.untried_moves@[k])
        &&& forall|k: int| 0 <= k < n.children@.len() ==> i < #[trigger] n.children@[k] < self.nodes@.len()
        &&& forall|k: int| 0 <= k < n.children@.len() ==> self.parents@[#[trigger] n.children@[k] as int] == i
        &&& forall|k: int| 0 <= k < n.children@.len() ==> pos.moves().contains(self.nodes@[#[trigger] n.children@[k] as int].last_move)
        &&& forall|k: int| 0 <= k < n.children@.len() ==> self.positions@[#[trigger] n.children@[k] as int] == pos.next(self.nodes@[n.children@[k] as int].last_move)
        &&& forall|k1: int, k2: int| 0 <= k1 < k2 < n.children@.len() ==> n.children@[k1] < n.children@[k2]
        &&& i > 0 ==> 0 <= self.parents@[i] < i
    }

    closed spec fn stats_ok(&self, i: int) -> bool {
        &&& self.visits@[i] <= self.visits@[0]
        &&& self.scores@[i] <= 2 * self.visits@[i]
        &&& i > 0 ==> self.visits@[i] >= 1
        &&& self.nodes@[i].children@.len() > 0 ==> self.visits@[i] >= 1
    }

    /// The tree is well formed: each node's position follows from its
    /// parent's by the node's move, its untried moves and children account
    /// for all the legal moves of its position, and its statistics are
    /// consistent.
    pub closed spec fn wf(&self) -> bool {
        &&& self.shape_wf()
        &&& forall|i: int| 0 <= i < self.nodes@.len() ==> #[trigger] self.stats_ok(i)
    }

    closed spec fn shape_wf(&self) -> bool {
        &&& self.nodes@.len() >= 1
        &&& self.visits@.len() == self.nodes@.len()
        &&& self.scores@.len() == self.nodes@.len()
        &&& self.positions@.len() == self.nodes@.len()
        &&& self.parents@.len() == self.nodes@.len()
        &&& forall|i: int| 0 <= i < self.nodes@.len() ==> #[trigger] self.shape_ok(i)
    }

    /// The untried moves of node `i`; the last one is expanded next.
    pub closed spec fn untried_of(&self, i: int) -> Seq<M> {
        self.nodes@[i].untried_moves@
    }

    /// The `j`-th child of node `i` is the one that UCB1 picks: its value is
    /// the largest, and no earlier child has as large a value.
    pub open spec fn is_ucb_choice(&self, i: int, j: int, bias: nat) -> bool {
        &&& 0 <= j < self.children_of(i).len()
        &&& forall|k: int| 0 <= k < self.children_of(i).len() ==> self.child_value(i, k, bias) <= self.child_value(i, j, bias)
        &&& forall|k: int| 0 <= k < j ==> self.child_value(i, k, bias) < self.child_value(i, j, bias)
    }

    /// Selection goes from node `i` to node `c`: `i` has no untried move
    /// left, and `c` is its UCB1 choice.
    pub open spec fn selects(&self, i: int, c: int, bias: nat) -> bool {
        &&& self.untried_of(i).len() == 0
        &&& exists|j: int| #[trigger] self.is_ucb_choice(i, j, bias) && self.children_of(i)[j] == c
    }

    /// The UCB1 value of the `k`-th child of node `i`.
    pub closed spec fn child_value(&self, i: int, k: int, bias: nat) -> nat {
        let c = self.nodes@[i].children@[k] as int;
        ucb1(self.scores@[c] as nat, self.visits@[c] as nat, self.visits@[i] as nat, bias)
    }

    /// Finds the child of node `i` that maximizes UCB1; of several such
    /// children, the first in expansion order. Returns its rank among the
    /// children.
    fn select_best_child(&self, i: usize, bias: u32) -> (j: usize)
        requires
            self.wf(),
            i < self.nodes@.len(),
            self.nodes@[i as int].children@.len() > 0,
        ensures
            self.is_ucb_choice(i as int, j as int, bias as nat),
    {
        let children = &self.nodes[i].children;
        let parent_visits = self.visits[i];
        proof {
            assert(self.shape_ok(i as int));
            assert(self.stats_ok(i as int));
        }
        let c0 = children[0];
        proof {
            assert(self.stats_ok(c0 as int));
        }
        let mut best: usize = 0;
        let mut best_value = ucb(self.scores[c0], self.visits[c0], parent_visits, bias);
        let mut k: usize = 1;
        while k < children.len()
            invariant
                self.wf(),
                i < self.nodes@.len(),
                children@ == self.nodes@[i as int].children@,
                parent_visits == self.visits@[i as int],
                parent_visits >= 1,
                best < k <= children@.len(),
                best_value == self.child_value(i as int, best as int, bias as nat),
                forall|k2: int| 0 <= k2 < k ==> self.child_value(i as int, k2, bias as nat) <= best_value,
                forall|k2: int| 0 <= k2 < best ==> self.child_value(i as int, k2, bias as nat) < best_value,
            decreases children@.len() - k,
        {
            let c = children[k];
            proof {
                assert(self.shape_ok(i as int));
                assert(self.stats_ok(c as int));
            }
            let v = ucb(self.scores[c], self.visits[c], parent_visits, bias);
            if v > best_value {
                best = k;
                best_value = v;
            }
            k = k + 1;
        }
        best
    }

    /// Records the outcome `w` of one rollout at node `i`.
    fn update(&mut self, i: usize, w: Option<Player>)
        requires
            i < old(self).nodes@.len(),
            old(self).visits@.len() == old(self).nodes@.len(),
            old(self).scores@.len() == old(self).nodes@.len(),
            old(self).visits@[i as int] < u64::MAX,
            old(self).scores@[i as int] <= 2 * old(self).visits@[i as int],
        ensures
            final(self).nodes@ == old(self).nodes@,
            final(self).positions@ == old(self).positions@,
            final(self).parents@ == old(self).parents@,
            final(self).visits@ == old(self).visits@.update(i as int, (old(self).visits@[i as int] + 1) as u64),
            final(self).scores@ == old(self).scores@.update(
                i as int,
                (old(self).scores@[i as int] + points(w, old(self).nodes@[i as int].last_player)) as u128,
            ),
    {
        let p = self.nodes[i].last_player;
        let gain: u128 = match w {
            Some(x) => if x == p { 2 } else { 0 },
            None => 1,
        };
        let v = self.visits[i];
        self.visits.set(i, v + 1);
        let s = self.scores[i];
        self.scores.set(i, s + gain);
    }

    /// Adds a child to node `cur` with its last untried move, and plays a
    /// random game from the child's position.
    fn expand(&mut self, cur: usize, game: &mut Game<G, M>, rng: &mut StdRng) -> (w: Option<Player>)
        requires
            old(self).shape_wf(),
            cur < old(self).nodes@.len(),
            old(self).nodes@[cur as int].untried_moves@.len() > 0,
            *old(game) == old(self).positions@[cur as int],
        ensures
            final(self).shape_wf(),
            final(self).nodes@.len() == old(self).nodes@.len() + 1,
            final(self).visits@ == old(self).visits@.push(0),
            final(self).scores@ == old(self).scores@.push(0),
            final(self).parents@[old(self).nodes@.len() as int] == cur,
            final(self).nodes@[old(self).nodes@.len() as int].last_move == old(self).nodes@[cur as int].untried_moves@.last(),
            final(self).nodes@[cur as int].untried_moves@ == old(self).nodes@[cur as int].untried_moves@.drop_last(),
            final(game).over(),
            w == final(game).board().winner_of(),
            reachable(final(self).positions@[old(self).nodes@.len() as int], *final(game)),
            final(self).nodes@[cur as int].children@ == old(self).nodes@[cur as int].children@.push(
                old(self).nodes@.len() as usize,
            ),
            forall|i: int| 0 <= i < old(self).nodes@.len() ==> {
                &&& final(self).positions@[i] == old(self).positions@[i]
                &&& final(self).parents@[i] == old(self).parents@[i]
                &&& #[trigger] final(self).nodes@[i].last_move == old(self).nodes@[i].last_move
                &&& final(self).nodes@[i].last_player == old(self).nodes@[i].last_player
                &&& i != cur ==> final(self).nodes@[i].children@ == old(self).nodes@[i].children@
            },
    {
        let ghost old_self = *self;
        let m = self.nodes[cur].untried_moves.pop().unwrap();
        proof {
            assert(old_self.shape_ok(cur as int));
            let u = old_self.nodes@[cur as int].untried_moves@;
            assert(m == u[u.len() - 1]);
        }
        game.play(&m);
        let idx = self.nodes.len();
        let child = Self::new_node(m, game, rng);
        self.nodes.push(child);
        self.nodes[cur].children.push(idx);
        self.visits.push(0);
        self.scores.push(0);
        self.positions = Ghost(self.positions@.push(*game));
        self.parents = Ghost(self.parents@.push(cur as int));
        proof {
            let n = self.nodes@.len();
            assert forall|i: int| 0 <= i < n implies #[trigger] self.shape_ok(i) by {
                if i == idx {
                    let c = self.nodes@[i];
                    assert forall|k: int| 0 <= k < c.untried_moves@.len()
                        implies self.positions@[i].moves().contains(#[trigger] c.untried_moves@[k]) by {
                        lemma_permutation_contains(c.untried_moves@, game.moves(), k);
                    }
                    lemma_add_empty(c.untried_moves@.to_multiset(), self.child_moves(i));
                } else {
                    assert(old_self.shape_ok(i));
                    let o = old_self.nodes@[i];
                    let c = self.nodes@[i];
                    if i == cur {
                        assert(c.untried_moves@ == o.untried_moves@.drop_last());
                        assert forall|k: int| 0 <= k < c.untried_moves@.len()
                            implies self.positions@[i].moves().contains(#[trigger] c.untried_moves@[k]) by {
                            assert(c.untried_moves@[k] == o.untried_moves@[k]);
                        }
                        assert forall|k: int| 0 <= k < c.children@.len()
                            implies self.positions@[#[trigger] c.children@[k] as int]
                                == self.positions@[i].next(self.nodes@[c.children@[k] as int].last_move) by {
                            if k < o.children@.len() {
                                assert(c.children@[k] == o.children@[k]);
                            }
                        }
                        let u = o.untried_moves@;
                        let mv = u.last();
                        assert(self.child_moves(i) =~= old_self.child_moves(i).push(mv));
                        assert(u =~= c.untried_moves@.push(mv));
                        lemma_multiset_move(c.untried_moves@, old_self.child_moves(i), mv);
                    } else {
                        assert(c == o);
                        assert(self.child_moves(i) =~= old_self.child_moves(i));
                    }
                }
            }
        }
        rollout(game, rng)
    }

    /// The visits of node `i` of `new` before the step from `old`: none for
    /// a node that the step created.
    pub open spec fn visits_before(old: &Self, i: int) -> nat {
        if i < old.size() { old.visit_count(i) } else { 0 }
    }

    /// The score of node `i` of `new` before the step from `old`.
    pub open spec fn score_before(old: &Self, i: int) -> nat {
        if i < old.size() { old.score_of(i) } else { 0 }
    }

    /// `path` goes down from the root: each node is a child of the one before.
    pub open spec fn is_root_path(&self, path: Seq<usize>) -> bool {
        &&& path.len() >= 1
        &&& path[0] == 0
        &&& forall|t: int| 0 <= t < path.len() ==> path[t] < self.size()
        &&& forall|t: int| 0 < t < path.len() ==> #[trigger] self.children_of(path[t - 1] as int).contains(path[t])
    }

    /// `new` is `old` where every node on `path` recorded the outcome `w`
    /// (one more visit, and the outcome's points for the node's player),
    /// and no other node changed.
    pub open spec fn recorded(old: &Self, new: &Self, path: Seq<usize>, w: Option<Player>) -> bool {
        forall|i: int| 0 <= i < new.size() ==> #[trigger] Self::recorded_at(old, new, path, w, i)
    }

    /// Node `i` of `new` recorded `w` if it lies on `path`, and is as in `old` otherwise.
    pub open spec fn recorded_at(old: &Self, new: &Self, path: Seq<usize>, w: Option<Player>, i: int) -> bool {
        &&& new.visit_count(i) == Self::visits_before(old, i) + (if path.contains(i as usize) { 1nat } else { 0nat })
        &&& new.score_of(i) == Self::score_before(old, i) + (if path.contains(i as usize) { points(w, new.player_of(i)) } else { 0nat })
    }

    spec fn count_ok(&self, pre: &Self, done: Seq<usize>, w: Option<Player>, i: int) -> bool {
        &&& self.visits@[i] == pre.visits@[i] + (if done.contains(i as usize) { 1int } else { 0int })
        &&& self.scores@[i] == pre.scores@[i] + (if done.contains(i as usize) { points(w, pre.nodes@[i].last_player) as int } else { 0int })
    }

    spec fn counts_from(&self, pre: &Self, done: Seq<usize>, w: Option<Player>) -> bool {
        forall|i: int| 0 <= i < pre.nodes@.len() ==> #[trigger] self.count_ok(pre, done, w, i)
    }

    /// Performs one iteration of the search from the working copy `game` of
    /// the root's state: selects down the tree by UCB1, expands one untried
    /// move and plays a random game from it (or reads the winner at a
    /// terminal node), then records the outcome at every node of the path
    /// from the root. Returns the outcome.
    #[verifier::rlimit(60)]
    pub fn iterate(&mut self, game: &mut Game<G, M>, rng: &mut StdRng, bias: u32) -> (w: Option<Player>)
        requires
            old(self).wf(),
            *old(game) == old(self).position(0),
            old(self).visit_count(0) < u64::MAX,
        ensures
            final(self).wf(),
            final(self).visit_count(0) == old(self).visit_count(0) + 1,
            old(self).size() <= final(self).size() <= old(self).size() + 1,
            final(self).position(0).moves().len() > 0 ==> final(self).children_of(0).len() > 0,
            final(self).position(0).moves().len() > 0 ==> final(self).visit_sum(final(self).children_of(0))
                == old(self).visit_sum(old(self).children_of(0)) + 1,
            forall|i: int| 0 <= i < old(self).size() ==> final(self).position(i) == old(self).position(i),
            forall|i: int| 0 <= i < old(self).size() ==> final(self).move_of(i) == old(self).move_of(i),
            forall|i: int| 0 <= i < old(self).size() ==> final(self).player_of(i) == old(self).player_of(i),
            exists|path: Seq<usize>| {
                &&& #[trigger] final(self).is_root_path(path)
                &&& Self::recorded(old(self), final(self), path, w)
                &&& forall|t: int| 0 < t < path.len() && path[t] < old(self).size()
                    ==> #[trigger] old(self).selects(path[t - 1] as int, path[t] as int, bias as nat)
                &&& final(game).over()
                &&& w == final(game).board().winner_of()
                &&& reachable(final(self).position(path.last() as int), *final(game))
                &&& if final(self).size() > old(self).size() {
                    &&& path.len() >= 2
                    &&& path.last() == old(self).size()
                    &&& old(self).untried_of(path[path.len() - 2] as int).len() > 0
                    &&& final(self).move_of(old(self).size() as int) == old(self).untried_of(path[path.len() - 2] as int).last()
                    &&& final(self).untried_of(path[path.len() - 2] as int) == old(self).untried_of(path[path.len() - 2] as int).drop_last()
                } else {
                    &&& old(self).untried_of(path.last() as int).len() == 0
                    &&& old(self).children_of(path.last() as int).len() == 0
                    &&& *final(game) == old(self).position(path.last() as int)
                }
            },
    {
        let ghost old_self = *self;
        let mut cur: usize = 0;
        let mut path: Vec<usize> = Vec::new();
        path.push(0);
        while self.nodes[cur].untried_moves.len() == 0 && self.nodes[cur].children.len() > 0
            invariant
                self.wf(),
                *self == old_self,
                cur < self.nodes@.len(),
                *game == self.positions@[cur as int],
                path@.len() >= 1,
                path@[0] == 0,
                path@[path@.len() - 1] == cur,
                forall|t: int| 0 <= t < path@.len() ==> path@[t] < self.nodes@.len(),
                forall|s1: int, s2: int| 0 <= s1 < s2 < path@.len() ==> path@[s1] < path@[s2],
                forall|t: int| 0 < t < path@.len() ==> #[trigger] self.children_of(path@[t - 1] as int).contains(path@[t]),
                forall|t: int| 0 < t < path@.len() ==> #[trigger] old_self.selects(path@[t - 1] as int, path@[t] as int, bias as nat),
            decreases self.nodes@.len() - cur,
        {
            let j = self.select_best_child(cur, bias);
            let ghost cur_before = cur;
            let c = self.nodes[cur].children[j];
            proof {
                assert(self.shape_ok(cur as int));
                assert(self.children_of(cur as int)[j as int] == c);
            }
            game.play(&self.nodes[c].last_move);
            path.push(c);
            cur = c;
            proof {
                assert(old_self.is_ucb_choice(cur_before as int, j as int, bias as nat));
                assert forall|t: int| 0 < t < path@.len() implies #[trigger] self.children_of(path@[t - 1] as int).contains(path@[t]) by {
                    if t < path@.len() - 1 {
                        assert(path@[t - 1] == path@.drop_last()[t - 1]);
                        assert(path@[t] == path@.drop_last()[t]);
                    }
                }
                assert forall|t: int| 0 < t < path@.len() implies #[trigger] old_self.selects(path@[t - 1] as int, path@[t] as int, bias as nat) by {
                    if t < path@.len() - 1 {
                        assert(path@[t - 1] == path@.drop_last()[t - 1]);
                        assert(path@[t] == path@.drop_last()[t]);
                    }
                }
            }
        }
        let ghost mid = *self;
        let ghost descent = path@;
        let w = if self.nodes[cur].untried_moves.len() > 0 {
            let r = self.expand(cur, game, rng);
            path.push(self.nodes.len() - 1);
            proof {
                assert(path@[descent.len() - 1] == cur);
            }
            r
        } else {
            proof {
                assert(self.shape_ok(cur as int));
                assert(legal_line(*game, Seq::<M>::empty()) && state_after(*game, Seq::<M>::empty()) == *game);
            }
            game.winner()
        };
        proof {
            assert forall|t: int| 0 < t < path@.len() implies #[trigger] self.children_of(path@[t - 1] as int).contains(path@[t]) by {
                if self.nodes@.len() > old_self.nodes@.len() && t == path@.len() - 1 {
                    assert(self.children_of(cur as int).last() == path@[t]);
                } else {
                    let p = path@[t - 1] as int;
                    assert(p < old_self.nodes@.len());
                    assert(old_self.children_of(p).contains(path@[t]));
                    let k = choose|k: int| 0 <= k < old_self.children_of(p).len() && old_self.children_of(p)[k] == path@[t];
                    if self.nodes@.len() == old_self.nodes@.len() {
                        assert(*self == old_self);
                    } else if p == cur {
                        assert(self.children_of(p)[k] == path@[t]);
                    } else {
                        assert(mid == old_self);
                        assert(self.nodes@[p].last_move == mid.nodes@[p].last_move);
                        assert(self.children_of(p) == old_self.children_of(p));
                    }
                }
            }
        }
        let ghost pre = *self;
        proof {
            assert(pre.shape_wf());
            if self.nodes@.len() > old_self.nodes@.len() {
                assert(path@[path@.len() - 1] == (self.nodes@.len() - 1) as usize);
            }
            assert forall|i: int| 0 <= i < pre.nodes@.len() implies
                #[trigger] pre.visits@[i] <= pre.visits@[0] && pre.scores@[i] <= 2 * pre.visits@[i] by {
                if i < old_self.nodes@.len() {
                    assert(old_self.stats_ok(i));
                    assert(old_self.stats_ok(0));
                }
            }
        }
        let total = self.nodes.len();
        let mut t: usize = 0;
        while t < path.len()
            invariant
                total == pre.nodes@.len(),
                self.nodes@ == pre.nodes@,
                self.positions@ == pre.positions@,
                self.parents@ == pre.parents@,
                self.visits@.len() == pre.visits@.len(),
                self.scores@.len() == pre.scores@.len(),
                pre.visits@.len() == pre.nodes@.len(),
                pre.scores@.len() == pre.nodes@.len(),
                t <= path@.len(),
                path@.len() >= 1,
                path@[0] == 0,
                forall|s: int| 0 <= s < path@.len() ==> path@[s] < pre.nodes@.len(),
                forall|s1: int, s2: int| 0 <= s1 < s2 < path@.len() ==> path@[s1] < path@[s2],
                forall|i: int| 0 <= i < pre.nodes@.len() ==> #[trigger] pre.visits@[i] <= pre.visits@[0],
                pre.visits@[0] < u64::MAX,
                forall|i: int| 0 <= i < pre.nodes@.len() ==> #[trigger] pre.scores@[i] <= 2 * pre.visits@[i],
                self.counts_from(&pre, path@.subrange(0, t as int), w),
            decreases path@.len() - t,
        {
            let n = path[t];
            proof {
                assert(!path@.subrange(0, t as int).contains(n)) by {
                    if path@.subrange(0, t as int).contains(n) {
                        let s = choose|s: int| 0 <= s < t && path@.subrange(0, t as int)[s] == n;
                        assert(path@[s] == n);
                    }
                }
                assert(self.count_ok(&pre, path@.subrange(0, t as int), w, n as int));
                assert(self.visits@[n as int] == pre.visits@[n as int]);
            }
            let ghost before = *self;
            self.update(n, w);
            t = t + 1;
            proof {
                assert forall|i: int| 0 <= i < pre.nodes@.len() implies #[trigger] self.count_ok(&pre, path@.subrange(0, t as int), w, i) by {
                    assert(path@.subrange(0, t as int) =~= path@.subrange(0, t - 1).push(n));
                    lemma_push_contains(path@.subrange(0, t - 1), n, i as usize);
                    let was = path@.subrange(0, t - 1).contains(i as usize);
                    assert(before.count_ok(&pre, path@.subrange(0, t - 1), w, i));
                    if i == n as int {
                        assert(!was);
                        assert(self.visits@[i] == before.visits@[i] + 1);
                        assert(self.scores@[i] == before.scores@[i] + points(w, pre.nodes@[i].last_player));
                    } else {
                        assert(i as usize != n);
                        assert(self.visits@[i] == before.visits@[i]);
                        assert(self.scores@[i] == before.scores@[i]);
                    }
                }
            }
        }
        proof {
            assert(path@.subrange(0, path@.len() as int) == path@);
            assert(path@.contains(0));
            assert(path@[descent.len() - 1] == cur);
            if self.nodes@.len() > old_self.nodes@.len() {
                assert(path@.contains(cur));
                assert(path@[path@.len() - 1] == (self.nodes@.len() - 1) as usize);
                assert(path@.contains((self.nodes@.len() - 1) as usize));
            }
            assert forall|i: int| 0 <= i < self.nodes@.len() implies #[trigger] self.shape_ok(i) by {
                assert(pre.shape_ok(i));
            }
            assert forall|i: int| 0 <= i < self.nodes@.len() implies #[trigger] self.stats_ok(i) by {
                assert(self.count_ok(&pre, path@.subrange(0, path@.len() as int), w, i));
                assert(self.count_ok(&pre, path@.subrange(0, path@.len() as int), w, 0));
                if i < old_self.nodes@.len() {
                    assert(old_self.stats_ok(i));
                }
                if self.nodes@[i].children@.len() > 0 && i == cur {
                    assert(path@.contains(cur));
                }
            }
            assert forall|t: int| 0 < t < path@.len() implies #[trigger] self.children_of(path@[t - 1] as int).contains(path@[t]) by {
                assert(pre.children_of(path@[t - 1] as int).contains(path@[t]));
            }
            assert(self.is_root_path(path@));
            assert forall|i: int| 0 <= i < self.size() implies #[trigger] Self::recorded_at(&old_self, &*self, path@, w, i) by {
                assert(self.count_ok(&pre, path@.subrange(0, path@.len() as int), w, i));
                if self.nodes@.len() > old_self.nodes@.len() {
                    assert(pre.visits@ == old_self.visits@.push(0));
                    assert(pre.scores@ == old_self.scores@.push(0));
                } else {
                    assert(pre == old_self);
                }
            }
            assert(Self::recorded(&old_self, &*self, path@, w));
            assert(Self::recorded_at(&old_self, &*self, path@, w, 0));
            assert forall|t: int| 0 < t < path@.len() && path@[t] < old_self.size()
                implies #[trigger] old_self.selects(path@[t - 1] as int, path@[t] as int, bias as nat) by {
                if self.nodes@.len() > old_self.nodes@.len() && t == path@.len() - 1 {
                } else if t < descent.len() {
                    assert(path@[t - 1] == descent[t - 1]);
                    assert(path@[t] == descent[t]);
                }
            }
            if self.nodes@.len() > old_self.nodes@.len() {
                assert(path@[path@.len() - 2] == cur);
            } else {
                assert(path@ == descent);
                assert(self.position(cur as int) == old_self.position(cur as int));
            }
            assert(old_self.shape_ok(0));
            if self.position(0).moves().len() > 0 {
                assert(path@.len() >= 2);
                if self.nodes@.len() > old_self.nodes@.len() && cur == 0 {
                    assert(self.children_of(0) == old_self.children_of(0).push(old_self.size() as usize));
                    assert(path@[1] == old_self.size());
                } else if self.nodes@.len() > old_self.nodes@.len() {
                    assert(mid == old_self);
                    assert(pre.nodes@[0].last_move == mid.nodes@[0].last_move);
                    assert(self.children_of(0) == old_self.children_of(0));
                } else {
                    assert(pre == old_self);
                    assert(self.children_of(0) == old_self.children_of(0));
                }
                Self::lemma_root_children_step(&old_self, &*self, path@, w);
            }
            if path@.len() > 1 {
                let t = 1int;
                assert(self.children_of(path@[t - 1] as int).contains(path@[t]));
                assert(path@[t - 1] == 0);
            } else if self.nodes@.len() > old_self.nodes@.len() {
                assert(self.children_of(0).len() > 0);
            }
            assert forall|i: int| 0 <= i < old_self.size() implies
                self.position(i) == old_self.position(i)
                && self.move_of(i) == old_self.move_of(i)
                && self.player_of(i) == old_self.player_of(i) by {
                assert(mid == old_self);
                assert(pre.nodes@[i].last_move == mid.nodes@[i].last_move);
                assert(self.positions@[i] == old_self.positions@[i]);
                assert(self.nodes@[i].last_player == old_self.nodes@[i].last_player);
            }
        }
        w
    }

    /// Grows a search tree from `game` with `nb_iter` iterations, each on a
    /// fresh copy of `game`.
    pub fn build(game: &Game<G, M>, rng: &mut StdRng, nb_iter: usize, bias: u32) -> (r: Self)
        ensures
            r.wf(),
            r.position(0) == *game,
            r.visit_count(0) == nb_iter,
            nb_iter > 0 && game.moves().len() > 0 ==> r.children_of(0).len() > 0,
            game.moves().len() > 0 ==> r.visit_sum(r.children_of(0)) == nb_iter,
    {
        let mut tree = Self::new(game, rng);
        let mut i: usize = 0;
        while i < nb_iter
            invariant
                tree.wf(),
                tree.position(0) == *game,
                tree.visit_count(0) == i,
                i <= nb_iter,
                i > 0 && game.moves().len() > 0 ==> tree.children_of(0).len() > 0,
                game.moves().len() > 0 ==> tree.visit_sum(tree.children_of(0)) == i,
            decreases nb_iter - i,
        {
            let mut work = game.clone();
            tree.iterate(&mut work, rng, bias);
            i = i + 1;
        }
        tree
    }

    /// Child `k` of the root has a strictly higher win ratio
    /// (`score / visits`) than child `j`.
    pub open spec fn ratio_above(&self, k: int, j: int) -> bool {
        let a = self.children_of(0)[k] as int;
        let b = self.children_of(0)[j] as int;
        self.score_of(a) * self.visit_count(b) > self.score_of(b) * self.visit_count(a)
    }

    /// Child `j` of the root comes first when the children are ranked by win
    /// ratio, best first, children of equal ratio in expansion order.
    pub open spec fn is_best_ranked(&self, j: int) -> bool {
        &&& 0 <= j < self.children_of(0).len()
        &&& forall|k: int| 0 <= k < self.children_of(0).len() ==> !self.ratio_above(k, j)
        &&& forall|k: int| 0 <= k < j ==> self.ratio_above(j, k)
    }

    /// Returns the rank, among the root's children, of the child with the
    /// best win ratio (the first such child in expansion order).
    pub fn best_child(&self) -> (j: usize)
        requires
            self.wf(),
            self.children_of(0).len() > 0,
            self.visit_count(0) < 0x8000_0000_0000_0000,
        ensures
            self.is_best_ranked(j as int),
    {
        let children = &self.nodes[0].children;
        proof {
            assert(self.shape_ok(0));
        }
        let mut best: usize = 0;
        let mut k: usize = 1;
        while k < children.len()
            invariant
                self.wf(),
                self.shape_ok(0),
                self.visit_count(0) < 0x8000_0000_0000_0000,
                children@ == self.children_of(0),
                best < k <= children@.len(),
                forall|k2: int| 0 <= k2 < k ==> !self.ratio_above(k2, best as int),
                forall|k2: int| 0 <= k2 < best ==> self.ratio_above(best as int, k2),
            decreases children@.len() - k,
        {
            let a = children[k];
            let b = children[best];
            proof {
                assert(self.stats_ok(a as int));
                assert(self.stats_ok(b as int));
                let va = self.visits@[a as int];
                let vb = self.visits@[b as int];
                let sa = self.scores@[a as int];
                let sb = self.scores@[b as int];
                assert(sa * vb <= 2 * 0x8000_0000_0000_0000u128 * 0x8000_0000_0000_0000u128) by (nonlinear_arith)
                    requires sa <= 2 * va, va < 0x8000_0000_0000_0000u128, vb < 0x8000_0000_0000_0000u128;
                assert(sb * va <= 2 * 0x8000_0000_0000_0000u128 * 0x8000_0000_0000_0000u128) by (nonlinear_arith)
                    requires sb <= 2 * vb, va < 0x8000_0000_0000_0000u128, vb < 0x8000_0000_0000_0000u128;
            }
            let above = self.scores[a] * (self.visits[b] as u128) > self.scores[b] * (self.visits[a] as u128);
            if above {
                proof {
                    assert forall|k2: int| 0 <= k2 < k implies !self.ratio_above(k2, k as int) by {
                        lemma_ratio_transitive(self, k2, best as int, k as int);
                    }
                    assert forall|k2: int| 0 <= k2 < k implies self.ratio_above(k as int, k2) by {
                        lemma_ratio_transitive(self, k2, best as int, k as int);
                    }
                }
                best = k;
            }
            k = k + 1;
        }
        best
    }

    /// Consumes the tree and returns the move of the root's child with the
    /// best win ratio.
    pub fn into_best_move(self) -> (r: M)
        requires
            self.wf(),
            self.children_of(0).len() > 0,
            self.visit_count(0) < 0x8000_0000_0000_0000,
        ensures
            exists|j: int| #[trigger] self.is_best_ranked(j) && r == self.move_of(self.children_of(0)[j] as int),
            self.position(0).moves().contains(r),
    {
        let j = self.best_child();
        let c = self.nodes[0].children[j];
        proof {
            assert(self.shape_ok(0));
            assert(self.is_best_ranked(j as int));
        }
        let mut nodes = self.nodes;
        let node = nodes.swap_remove(c);
        node.last_move
    }

    /// The total visits of the nodes `cs`.
    pub open spec fn visit_sum(&self, cs: Seq<usize>) -> nat
        decreases cs.len(),
    {
        if cs.len() == 0 {
            0
        } else {
            self.visit_sum(cs.drop_last()) + self.visit_count(cs.last() as int)
        }
    }

    proof fn lemma_visit_sum_shift(old: &Self, new: &Self, cs: Seq<usize>, x: usize)
        requires
            forall|k1: int, k2: int| 0 <= k1 < k2 < cs.len() ==> cs[k1] < cs[k2],
            forall|k: int| 0 <= k < cs.len() ==> #[trigger] new.visit_count(cs[k] as int)
                == old.visit_count(cs[k] as int) + (if cs[k] == x { 1nat } else { 0nat }),
        ensures
            new.visit_sum(cs) == old.visit_sum(cs) + (if cs.contains(x) { 1nat } else { 0nat }),
        decreases cs.len(),
    {
        if cs.len() > 0 {
            let d = cs.drop_last();
            assert forall|k: int| 0 <= k < d.len() implies #[trigger] new.visit_count(d[k] as int)
                == old.visit_count(d[k] as int) + (if d[k] == x { 1nat } else { 0nat }) by {
                assert(d[k] == cs[k]);
            }
            Self::lemma_visit_sum_shift(old, new, d, x);
            assert(new.visit_count(cs[cs.len() - 1] as int) == old.visit_count(cs[cs.len() - 1] as int)
                + (if cs[cs.len() - 1] == x { 1nat } else { 0nat }));
            lemma_push_contains(d, cs.last(), x);
            assert(cs =~= d.push(cs.last()));
            if d.contains(x) && cs.last() == x {
                let k = choose|k: int| 0 <= k < d.len() && d[k] == x;
                assert(cs[k] == x);
            }
        }
    }

    /// After a step along `path` from `old` to `new`, the visits of the
    /// root's children have grown by one in total.
    proof fn lemma_root_children_step(old: &Self, new: &Self, path: Seq<usize>, w: Option<Player>)
        requires
            new.wf(),
            old.wf(),
            old.size() <= new.size(),
            new.is_root_path(path),
            path.len() >= 2,
            forall|s1: int, s2: int| 0 <= s1 < s2 < path.len() ==> path[s1] < path[s2],
            Self::recorded(old, new, path, w),
            new.children_of(0) == old.children_of(0)
                || (new.children_of(0) == old.children_of(0).push(old.size() as usize) && path[1] == old.size()),
        ensures
            new.visit_sum(new.children_of(0)) == old.visit_sum(old.children_of(0)) + 1,
    {
        let cs = old.children_of(0);
        assert(old.shape_ok(0));
        assert(new.shape_ok(0));
        let one = 1int;
        assert(new.children_of(path[one - 1] as int).contains(path[one]));
        // A child of the root lies on the path only as its second node.
        assert forall|k: int| 0 <= k < new.children_of(0).len() implies
            (path.contains(#[trigger] new.children_of(0)[k]) <==> new.children_of(0)[k] == path[1]) by {
            let c = new.children_of(0)[k];
            if path.contains(c) {
                let t = choose|t: int| 0 <= t < path.len() && path[t] == c;
                assert(t > 0);
                assert(new.children_of(path[t - 1] as int).contains(path[t]));
                let p = path[t - 1] as int;
                assert(new.shape_ok(p));
                let kk = choose|kk: int| 0 <= kk < new.children_of(p).len() && new.children_of(p)[kk] == c;
                assert(new.parents@[c as int] == p);
                assert(new.parents@[c as int] == 0);
                if t > 1 {
                    assert(path[0] < path[t - 1]);
                }
            } else {
                assert(path[1] != c) by {
                    if path[1] == c {
                        assert(path.contains(c) == true) by {
                            assert(path[1] == c);
                        }
                    }
                }
            }
        }
        assert forall|k: int| 0 <= k < cs.len() implies #[trigger] new.visit_count(cs[k] as int)
            == old.visit_count(cs[k] as int) + (if cs[k] == path[1] { 1nat } else { 0nat }) by {
            assert(Self::recorded_at(old, new, path, w, cs[k] as int));
            assert(new.children_of(0)[k] == cs[k]);
        }
        Self::lemma_visit_sum_shift(old, new, cs, path[1]);
        if new.children_of(0) == cs {
            let k = choose|k: int| 0 <= k < new.children_of(0).len() && new.children_of(0)[k] == path[1];
            assert(cs.contains(path[1]));
        } else {
            assert(!cs.contains(path[1]));
            assert(new.children_of(0).drop_last() =~= cs);
            assert(Self::recorded_at(old, new, path, w, old.size() as int));
            assert(path.contains(path[1]));
        }
    }

    /// The untried moves of a node and the moves of its children are,
    /// together, exactly the legal moves of its position.
    pub proof fn lemma_moves_accounted(&self, i: int)
        requires
            self.wf(),
            0 <= i < self.size(),
        ensures
            self.untried_of(i).to_multiset().add(self.child_moves(i).to_multiset()) == self.position(i).moves().to_multiset(),
            self.untried_of(i).len() + self.children_of(i).len() == self.position(i).moves().len(),
            self.child_moves(i).len() == self.children_of(i).len(),
            forall|k: int| 0 <= k < self.children_of(i).len() ==> #[trigger] self.child_moves(i)[k] == self.move_of(self.children_of(i)[k] as int),
    {
        assert(self.shape_ok(i));
    }

    /// Every expanded node has been visited at least once, so UCB1 never
    /// divides by a zero visit count.
    pub proof fn lemma_child_visited(&self, i: int, k: int)
        requires
            self.wf(),
            0 <= i < self.size(),
            0 <= k < self.children_of(i).len(),
        ensures
            self.visit_count(self.children_of(i)[k] as int) >= 1,
    {
        assert(self.shape_ok(i));
        assert(self.stats_ok(self.children_of(i)[k] as int));
    }

    /// An iteration that ended in a draw adds exactly one half point to the
    /// score of every node on its path.
    pub proof fn lemma_draw_adds_half_point(old: &Self, new: &Self, path: Seq<usize>, i: int)
        requires
            Self::recorded(old, new, path, None),
            0 <= i < new.size(),
            path.contains(i as usize),
        ensures
            new.score_of(i) == Self::score_before(old, i) + 1,
    {
        assert(Self::recorded_at(old, new, path, None, i));
    }

    /// Returns the number of nodes.
    pub fn len(&self) -> (r: usize)
        ensures
            r == self.size(),
    {
        self.nodes.len()
    }

    /// Returns the visit count of node `i`.
    pub fn visits(&self, i: usize) -> (r: u64)
        requires
            self.wf(),
            i < self.size(),
        ensures
            r == self.visit_count(i as int),
    {
        self.visits[i]
    }

    /// Returns the score of node `i`, in half points.
    pub fn score(&self, i: usize) -> (r: u128)
        requires
            self.wf(),
            i < self.size(),
        ensures
            r == self.score_of(i as int),
    {
        self.scores[i]
    }

    /// Returns the player credited with the move that led to node `i`.
    pub fn last_player(&self, i: usize) -> (r: Player)
        requires
            self.wf(),
            i < self.size(),
        ensures
            r == self.player_of(i as int),
    {
        self.nodes[i].last_player
    }

    /// Returns the children of node `i`, in expansion order.
    pub fn children(&self, i: usize) -> (r: &Vec<usize>)
        requires
            self.wf(),
            i < self.size(),
        ensures
            r@ == self.children_of(i as int),
    {
        &self.nodes[i].children
    }

    /// Creates the node reached by `last_move`, in the state `game`: its
    /// untried moves are the legal moves of `game`, shuffled.
    fn new_node(last_move: M, game: &Game<G, M>, rng: &mut StdRng) -> (r: Node<M>)
        ensures
            r.last_move == last_move,
            r.children@.len() == 0,
            r.untried_moves@.to_multiset() == game.moves().to_multiset(),
            r.untried_moves@.len() == game.moves().len(),
            r.last_player == opponent_of(game.turn()),
    {
        let mut untried_moves = game.possible_moves();
        shuffle_in_place(rng, &mut untried_moves);
        let len = untried_moves.len();
        Node {
            last_move,
            children: Vec::with_capacity(len),
            untried_moves,
            last_player: game.current_player().opponent(),
        }
    }

    /// Creates a tree that holds only its root, for the state `game`.
    pub fn new(game: &Game<G, M>, rng: &mut StdRng) -> (r: Self)
        ensures
            r.wf(),
            r.size() == 1,
            r.position(0) == *game,
            r.visit_count(0) == 0,
            r.score_of(0) == 0,
            r.children_of(0).len() == 0,
            r.untried_of(0).to_multiset() == game.moves().to_multiset(),
            r.player_of(0) == opponent_of(game.turn()),
    {
        let root = Self::new_node(M::default(), game, rng);
        proof {
            assert forall|k: int| 0 <= k < root.untried_moves@.len()
                implies game.moves().contains(#[trigger] root.untried_moves@[k]) by {
                lemma_permutation_contains(root.untried_moves@, game.moves(), k);
            }
        }
        let mut nodes: Vec<Node<M>> = Vec::new();
        nodes.push(root);
        let mut visits: Vec<u64> = Vec::new();
        visits.push(0);
        let mut scores: Vec<u128> = Vec::new();
        scores.push(0);
        let positions: Ghost<Seq<Game<G, M>>> = Ghost(Seq::empty().push(*game));
        let parents: Ghost<Seq<int>> = Ghost(Seq::empty().push(0int));
        let r = Tree { nodes, visits, scores, positions, parents };
        proof {
            lemma_add_empty(r.nodes@[0].untried_moves@.to_multiset(), r.child_moves(0));
        }
        assert(r.shape_ok(0));
        assert(r.stats_ok(0));
        r
    }
}

} // verus!
