//! Tic-tac-toe on a 3x3 board.
use vstd::prelude::*;
use crate::coords::Coords2D;
use crate::game::TwoPlayerGame;
use crate::player::Player;

verus! {

/// The side of the board.
pub const WIDTH: usize = 3;

/// A mark on the board.
#[derive(Debug, Clone, Copy, PartialEq, Eq, Structural)]
pub struct Token {
    player: Player,
}

/// A tic-tac-toe board. Cell `(x, y)` is held at index `3 * y + x`.
pub struct Board {
    grid: [Option<Token>; 9],
}

/// A move: the cell to mark.
#[derive(Debug, Clone, Copy, Default, PartialEq, Eq, Structural)]
pub struct Move(pub Coords2D);

impl crate::game::Move for Move {}

/// The index of the cell that `m` marks.
pub open spec fn cell_index(m: Move) -> int {
    m.0.y as int * 3 + m.0.x as int
}

/// The move that marks the cell at index `i`.
pub open spec fn move_at(i: int) -> Move {
    Move(Coords2D { x: (i % 3) as usize, y: (i / 3) as usize })
}

/// The cells of the `k`-th line: the three rows, the three columns, then
/// the two diagonals.
pub open spec fn line_at(k: int) -> (int, int, int) {
    if k == 0 {
        (0, 1, 2)
    } else if k == 1 {
        (3, 4, 5)
    } else if k == 2 {
        (6, 7, 8)
    } else if k == 3 {
        (0, 3, 6)
    } else if k == 4 {
        (1, 4, 7)
    } else if k == 5 {
        (2, 5, 8)
    } else if k == 6 {
        (0, 4, 8)
    } else {
        (6, 4, 2)
    }
}

/// The player whose three marks fill line `k`, if any.
spec fn line_owner(g: Seq<Option<Token>>, k: int) -> Option<Player> {
    let (a, b, c) = line_at(k);
    match g[a] {
        Some(t) => if g[b] == g[a] && g[c] == g[a] { Some(t.player) } else { None },
        None => None,
    }
}

/// The owner of the first filled line from line `k` on.
spec fn first_owner(g: Seq<Option<Token>>, k: int) -> Option<Player>
    decreases 8 - k,
{
    if k < 0 || k >= 8 {
        None
    } else {
        match line_owner(g, k) {
            Some(p) => Some(p),
            None => first_owner(g, k + 1),
        }
    }
}

/// The moves onto the empty cells among the first `n`, in index order.
pub open spec fn empty_prefix(g: Seq<Option<Token>>, n: int) -> Seq<Move>
    decreases n,
{
    if n <= 0 {
        Seq::empty()
    } else {
        empty_prefix(g, n - 1) + if g[n - 1] is None { seq![move_at(n - 1)] } else { Seq::empty() }
    }
}

/// The number of empty cells among the first `n`.
pub open spec fn empty_count(g: Seq<Option<Token>>, n: int) -> nat
    decreases n,
{
    if n <= 0 {
        0
    } else {
        empty_count(g, n - 1) + if g[n - 1] is None { 1nat } else { 0nat }
    }
}

proof fn lemma_empty_prefix_member(g: Seq<Option<Token>>, n: int, m: Move)
    requires
        0 <= n <= 9,
        empty_prefix(g, n).contains(m),
    ensures
        exists|i: int| 0 <= i < n && g[i] is None && m == move_at(i),
    decreases n,
{
    if n > 0 {
        let prev = empty_prefix(g, n - 1);
        let tail = if g[n - 1] is None { seq![move_at(n - 1)] } else { Seq::<Move>::empty() };
        let k = choose|k: int| 0 <= k < empty_prefix(g, n).len() && empty_prefix(g, n)[k] == m;
        if k < prev.len() {
            assert(prev[k] == m);
            lemma_empty_prefix_member(g, n - 1, m);
        } else {
            assert(tail[k - prev.len()] == m);
        }
    }
}

proof fn lemma_empty_prefix_all(g: Seq<Option<Token>>, n: int)
    requires
        0 <= n <= g.len(),
        forall|i: int| 0 <= i < g.len() ==> g[i] is None,
    ensures
        empty_prefix(g, n) =~= Seq::new(n as nat, |i: int| move_at(i)),
    decreases n,
{
    if n > 0 {
        lemma_empty_prefix_all(g, n - 1);
    }
}

proof fn lemma_empty_count_mark(g: Seq<Option<Token>>, n: int, i: int, t: Token)
    requires
        0 <= i < g.len(),
        0 <= n <= g.len(),
        g[i] is None,
    ensures
        empty_count(g.update(i, Some(t)), n) + (if i < n { 1nat } else { 0nat }) == empty_count(g, n),
    decreases n,
{
    if n > 0 {
        lemma_empty_count_mark(g, n - 1, i, t);
    }
}

impl Board {
    /// The mark on the cell at index `i`, where cell `(x, y)` has index `3 * y + x`.
    pub closed spec fn at(&self, i: int) -> Option<Player> {
        match self.grid@[i] {
            Some(t) => Some(t.player),
            None => None,
        }
    }

    /// The mark on cell `(x, y)`.
    pub open spec fn cell_spec(&self, x: int, y: int) -> Option<Player> {
        self.at(3 * y + x)
    }

    /// The player whose three marks fill line `k` (see `line_at`), if any.
    pub open spec fn line_winner(&self, k: int) -> Option<Player> {
        let (a, b, c) = line_at(k);
        if self.at(a) is Some && self.at(b) == self.at(a) && self.at(c) == self.at(a) {
            self.at(a)
        } else {
            None
        }
    }

    /// The owner of the first filled line from line `k` on.
    pub open spec fn winner_from(&self, k: int) -> Option<Player>
        decreases 8 - k,
    {
        if k < 0 || k >= 8 {
            None
        } else {
            match self.line_winner(k) {
                Some(p) => Some(p),
                None => self.winner_from(k + 1),
            }
        }
    }

    /// The moves onto the empty cells among the first `n`, in index order.
    pub open spec fn empty_cells(&self, n: int) -> Seq<Move>
        decreases n,
    {
        if n <= 0 {
            Seq::empty()
        } else {
            self.empty_cells(n - 1) + if self.at(n - 1) is None { seq![move_at(n - 1)] } else { Seq::empty() }
        }
    }

    proof fn lemma_first_owner(&self, k: int)
        requires
            0 <= k <= 8,
        ensures
            first_owner(self.grid@, k) == self.winner_from(k),
        decreases 8 - k,
    {
        if k < 8 {
            self.lemma_first_owner(k + 1);
            let (a, b, c) = line_at(k);
            assert(line_owner(self.grid@, k) == self.line_winner(k));
        }
    }

    proof fn lemma_empty_prefix(&self, n: int)
        requires
            0 <= n <= 9,
        ensures
            empty_prefix(self.grid@, n) == self.empty_cells(n),
        decreases n,
    {
        if n > 0 {
            self.lemma_empty_prefix(n - 1);
        }
    }

    /// A board is won by the owner of its first filled line.
    pub proof fn lemma_winner(&self)
        ensures
            self.winner_of() == self.winner_from(0),
    {
        self.lemma_first_owner(0);
    }

    /// The legal moves are the empty cells in index order, for either
    /// player, unless a line is filled.
    pub proof fn lemma_moves(&self, p: Player)
        ensures
            self.moves_of(p) == if self.winner_from(0) is Some { Seq::<Move>::empty() } else { self.empty_cells(9) },
    {
        self.lemma_first_owner(0);
        self.lemma_empty_prefix(9);
    }

    /// Playing `m` marks its cell for `p` and leaves the other cells.
    pub proof fn lemma_after(&self, p: Player, m: Move)
        requires
            0 <= cell_index(m) < 9,
        ensures
            forall|i: int| 0 <= i < 9 ==> #[trigger] self.after(p, m).at(i)
                == if i == cell_index(m) { Some(p) } else { self.at(i) },
    {
        let next = self.after(p, m);
        assert(next.grid@ =~= self.grid@.update(cell_index(m), Some(Token { player: p })));
    }

    closed spec fn marked(&self, i: int, k: int, p: Player) -> Option<Token> {
        if i == k { Some(Token { player: p }) } else { self.grid@[k] }
    }

    /// Creates an empty board.
    pub fn new() -> (r: Board)
        ensures
            forall|i: int| 0 <= i < 9 ==> r.at(i) is None,
            r.moves_of(Player::White) == Seq::new(9, |i: int| move_at(i)),
            r.moves_of(Player::Black) == Seq::new(9, |i: int| move_at(i)),
            r.winner_of() is None,
            r.horizon() == 9,
    {
        let r = Board { grid: [None; 9] };
        proof {
            assert(r.grid@ =~= Seq::new(9, |i: int| None::<Token>));
            reveal_with_fuel(empty_count, 10);
            reveal_with_fuel(first_owner, 9);
            lemma_empty_prefix_all(r.grid@, 9);
            assert(empty_prefix(r.grid@, 9) =~= Seq::new(9, |i: int| move_at(i)));
        }
        r
    }

    /// Returns the mark on cell `(x, y)`.
    pub fn cell(&self, x: usize, y: usize) -> (r: Option<Player>)
        requires
            x < 3,
            y < 3,
        ensures
            r == self.cell_spec(x as int, y as int),
    {
        match self.grid[3 * y + x] {
            Some(t) => Some(t.player),
            None => None,
        }
    }

    fn owner_of_line(&self, k: usize) -> (r: Option<Player>)
        requires
            k < 8,
        ensures
            r == line_owner(self.grid@, k as int),
    {
        let (a, b, c): (usize, usize, usize) = if k == 0 {
            (0, 1, 2)
        } else if k == 1 {
            (3, 4, 5)
        } else if k == 2 {
            (6, 7, 8)
        } else if k == 3 {
            (0, 3, 6)
        } else if k == 4 {
            (1, 4, 7)
        } else if k == 5 {
            (2, 5, 8)
        } else if k == 6 {
            (0, 4, 8)
        } else {
            (6, 4, 2)
        };
        match (self.grid[a], self.grid[b], self.grid[c]) {
            (Some(ta), Some(tb), Some(tc)) => {
                if ta.player == tb.player && ta.player == tc.player {
                    Some(ta.player)
                } else {
                    None
                }
            },
            _ => None,
        }
    }
}

impl Clone for Board {
    fn clone(&self) -> (r: Self)
        ensures
            r == *self,
    {
        Board { grid: self.grid }
    }
}

impl TwoPlayerGame<Move> for Board {
    closed spec fn moves_of(&self, p: Player) -> Seq<Move> {
        if first_owner(self.grid@, 0) is Some {
            Seq::empty()
        } else {
            empty_prefix(self.grid@, 9)
        }
    }

    closed spec fn after(&self, p: Player, m: Move) -> Self {
        let i = cell_index(m);
        Board {
            grid: [
                self.marked(i, 0, p),
                self.marked(i, 1, p),
                self.marked(i, 2, p),
                self.marked(i, 3, p),
                self.marked(i, 4, p),
                self.marked(i, 5, p),
                self.marked(i, 6, p),
                self.marked(i, 7, p),
                self.marked(i, 8, p),
            ],
        }
    }

    closed spec fn winner_of(&self) -> Option<Player> {
        first_owner(self.grid@, 0)
    }

    closed spec fn horizon(&self) -> nat {
        empty_count(self.grid@, 9)
    }

    proof fn lemma_play_shortens(&self, p: Player, m: Move) {
        lemma_empty_prefix_member(self.grid@, 9, m);
        let i = choose|i: int| 0 <= i < 9 && self.grid@[i] is None && m == move_at(i);
        assert(cell_index(m) == i);
        let next = self.after(p, m);
        assert(next.grid@ =~= self.grid@.update(i, Some(Token { player: p })));
        lemma_empty_count_mark(self.grid@, 9, i, Token { player: p });
    }

    proof fn lemma_clone_is_exact(&self, c: Self) {
    }

    fn possible_moves_in(&self, p: Player, moves: &mut Vec<Move>) {
        if self.winning_player().is_none() {
            let ghost start = moves@;
            let mut i: usize = 0;
            while i < 9
                invariant
                    i <= 9,
                    moves@ == start + empty_prefix(self.grid@, i as int),
                decreases 9 - i,
            {
                if self.grid[i].is_none() {
                    moves.push(Move(Coords2D { x: i % 3, y: i / 3 }));
                }
                i = i + 1;
                proof {
                    assert(moves@ =~= start + empty_prefix(self.grid@, i as int));
                }
            }
        } else {
            assert(moves@ =~= moves@ + Seq::<Move>::empty());
        }
    }

    fn play(&mut self, p: Player, m: &Move) {
        proof {
            lemma_empty_prefix_member(self.grid@, 9, *m);
        }
        let ghost before = *self;
        let idx = m.0.y * 3 + m.0.x;
        self.grid[idx] = Some(Token { player: p });
        proof {
            assert(self.grid@ =~= before.after(p, *m).grid@);
            assert(self.grid =~= before.after(p, *m).grid);
        }
    }

    fn winner(&self) -> (r: Option<Player>) {
        self.winning_player()
    }
}

impl Board {
    fn winning_player(&self) -> (r: Option<Player>)
        ensures
            r == first_owner(self.grid@, 0),
    {
        let mut k: usize = 0;
        while k < 8
            invariant
                k <= 8,
                first_owner(self.grid@, 0) == first_owner(self.grid@, k as int),
            decreases 8 - k,
        {
            let owner = self.owner_of_line(k);
            if owner.is_some() {
                return owner;
            }
            assert(first_owner(self.grid@, k as int) == first_owner(self.grid@, k + 1));
            k = k + 1;
        }
        None
    }
}

} // verus!
