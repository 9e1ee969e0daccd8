//! Connect four: seven columns of six cells; a token dropped in a column
//! falls to the lowest empty cell.
use vstd::prelude::*;
use crate::game::TwoPlayerGame;
use crate::player::Player;

verus! {

/// The number of columns.
pub const COLUMNS: usize = 7;

/// The number of rows.
pub const ROWS: usize = 6;

/// A token on the board.
#[derive(Debug, Clone, Copy, PartialEq, Eq, Structural)]
pub struct Token {
    player: Player,
}

/// A column, from 0.
#[derive(Debug, Clone, Copy, Default, PartialEq, Eq, Structural)]
pub struct Coords(pub usize);

/// A move: the column to drop a token in.
#[derive(Debug, Clone, Copy, Default, PartialEq, Eq, Structural)]
pub struct Move(pub Coords);

impl crate::game::Move for Move {}

/// The cells of the board, column by column, each column from the bottom:
/// cell `(col, row)` is held at index `6 * col + row`.
pub struct Grid([Option<Token>; 42]);

/// A connect-four board.
pub struct Board {
    grid: Grid,
}

/// Cell `(c, r)` lies on the board and holds a token of `p`.
spec fn holds(g: Seq<Option<Token>>, p: Player, c: int, r: int) -> bool {
    0 <= c < 7 && 0 <= r < 6 && g[6 * c + r] == Some(Token { player: p })
}

/// Four tokens of `p` in a line from cell `(c, r)` in direction `d`:
/// rightwards, upwards, up-right or down-right.
spec fn four_at(g: Seq<Option<Token>>, p: Player, c: int, r: int, d: int) -> bool {
    let (dc, dr) = if d == 0 { (1int, 0int) } else if d == 1 { (0int, 1int) } else if d == 2 { (1int, 1int) } else { (1int, -1int) };
    &&& holds(g, p, c, r)
    &&& holds(g, p, c + dc, r + dr)
    &&& holds(g, p, c + 2 * dc, r + 2 * dr)
    &&& holds(g, p, c + 3 * dc, r + 3 * dr)
}

/// The `j`-th candidate line: start cell and direction, in scan order.
spec fn four_at_index(g: Seq<Option<Token>>, p: Player, j: int) -> bool {
    four_at(g, p, j / 24, (j / 4) % 6, j % 4)
}

/// `p` has four tokens in a line.
spec fn has_four(g: Seq<Option<Token>>, p: Player) -> bool {
    exists|j: int| 0 <= j < 168 && #[trigger] four_at_index(g, p, j)
}

/// The first empty cell of column `c` from row `r` up, or 6 if there is none.
spec fn first_empty(g: Seq<Option<Token>>, c: int, r: int) -> int
    decreases 6 - r,
{
    if r >= 6 {
        6
    } else if g[6 * c + r] is None {
        r
    } else {
        first_empty(g, c, r + 1)
    }
}

/// The moves into the columns among the first `n` whose top cell is empty.
spec fn open_columns(g: Seq<Option<Token>>, n: int) -> Seq<Move>
    decreases n,
{
    if n <= 0 {
        Seq::empty()
    } else {
        open_columns(g, n - 1) + if g[6 * (n - 1) + 5] is None { seq![Move(Coords((n - 1) as usize))] } else { Seq::empty() }
    }
}

/// The number of empty cells among the first `n`.
spec fn empty_count(g: Seq<Option<Token>>, n: int) -> nat
    decreases n,
{
    if n <= 0 {
        0
    } else {
        empty_count(g, n - 1) + if g[n - 1] is None { 1nat } else { 0nat }
    }
}

proof fn lemma_open_column_member(g: Seq<Option<Token>>, n: int, m: Move)
    requires
        0 <= n <= 7,
        open_columns(g, n).contains(m),
    ensures
        m.0.0 < n,
        g[6 * m.0.0 + 5] is None,
    decreases n,
{
    if n > 0 {
        let prev = open_columns(g, n - 1);
        let tail = if g[6 * (n - 1) + 5] is None { seq![Move(Coords((n - 1) as usize))] } else { Seq::<Move>::empty() };
        let k = choose|k: int| 0 <= k < open_columns(g, n).len() && open_columns(g, n)[k] == m;
        if k < prev.len() {
            assert(prev[k] == m);
            lemma_open_column_member(g, n - 1, m);
        } else {
            assert(tail[k - prev.len()] == m);
        }
    }
}

proof fn lemma_first_empty_found(g: Seq<Option<Token>>, c: int, r: int)
    requires
        0 <= r <= 5,
        g[6 * c + 5] is None,
    ensures
        r <= first_empty(g, c, r) <= 5,
        g[6 * c + first_empty(g, c, r)] is None,
    decreases 6 - r,
{
    if r < 5 && !(g[6 * c + r] is None) {
        lemma_first_empty_found(g, c, r + 1);
    }
}

proof fn lemma_open_columns_all(g: Seq<Option<Token>>, n: int)
    requires
        0 <= n <= 7,
        g.len() == 42,
        forall|i: int| 0 <= i < 42 ==> g[i] is None,
    ensures
        open_columns(g, n) =~= Seq::new(n as nat, |c: int| Move(Coords(c as usize))),
    decreases n,
{
    if n > 0 {
        lemma_open_columns_all(g, n - 1);
    }
}

proof fn lemma_empty_count_mark(g: Seq<Option<Token>>, n: int, i: int, t: Token)
    requires
        0 <= i < g.len(),
        0 <= n <= g.len(),
        g[i] is None,
    ensures
        empty_count(g.update(i, Some(t)), n) + (if i < n { 1nat } else { 0nat }) == empty_count(g, n),
    decreases n,
{
    if n > 0 {
        lemma_empty_count_mark(g, n - 1, i, t);
    }
}

impl Grid {
    fn empty() -> (r: Grid)
        ensures
            r.0@ == Seq::new(42, |i: int| None::<Token>),
    {
        let r = Grid([None; 42]);
        assert(r.0@ =~= Seq::new(42, |i: int| None::<Token>));
        r
    }
}

impl Board {
    /// The token on cell `(col, row)`, for a cell on the board.
    pub closed spec fn at(&self, col: int, row: int) -> Option<Player> {
        match self.grid.0@[6 * col + row] {
            Some(t) => Some(t.player),
            None => None,
        }
    }

    /// The token on cell `(col, row)`.
    pub open spec fn cell_spec(&self, col: int, row: int) -> Option<Player> {
        self.at(col, row)
    }

    /// Cell `(c, r)` lies on the board and holds a token of `p`.
    pub open spec fn owns(&self, p: Player, c: int, r: int) -> bool {
        0 <= c < 7 && 0 <= r < 6 && self.at(c, r) == Some(p)
    }

    /// Four tokens of `p` in a line from cell `(c, r)` in direction `d`:
    /// rightwards (0), upwards (1), up-right (2) or down-right (3).
    pub open spec fn four_in_line(&self, p: Player, c: int, r: int, d: int) -> bool {
        let (dc, dr) = if d == 0 { (1int, 0int) } else if d == 1 { (0int, 1int) } else if d == 2 { (1int, 1int) } else { (1int, -1int) };
        &&& self.owns(p, c, r)
        &&& self.owns(p, c + dc, r + dr)
        &&& self.owns(p, c + 2 * dc, r + 2 * dr)
        &&& self.owns(p, c + 3 * dc, r + 3 * dr)
    }

    /// `p` has four tokens in a line, in any of the four directions.
    pub open spec fn has_line(&self, p: Player) -> bool {
        exists|c: int, r: int, d: int| 0 <= d < 4 && #[trigger] self.four_in_line(p, c, r, d)
    }

    /// The lowest empty row of column `c` from row `r` up, or 6 if there is none.
    pub open spec fn lowest_empty(&self, c: int, r: int) -> int
        decreases 6 - r,
    {
        if r >= 6 {
            6
        } else if self.at(c, r) is None {
            r
        } else {
            self.lowest_empty(c, r + 1)
        }
    }

    /// The moves into the columns among the first `n` whose top cell is empty.
    pub open spec fn open_cols(&self, n: int) -> Seq<Move>
        decreases n,
    {
        if n <= 0 {
            Seq::empty()
        } else {
            self.open_cols(n - 1) + if self.at(n - 1, 5) is None { seq![Move(Coords((n - 1) as usize))] } else { Seq::empty() }
        }
    }

    proof fn lemma_has_four(&self, p: Player)
        ensures
            has_four(self.grid.0@, p) == self.has_line(p),
    {
        let g = self.grid.0@;
        if has_four(g, p) {
            let j = choose|j: int| 0 <= j < 168 && #[trigger] four_at_index(g, p, j);
            assert(self.four_in_line(p, j / 24, (j / 4) % 6, j % 4));
        }
        if self.has_line(p) {
            let (c, r, d) = choose|c: int, r: int, d: int| 0 <= d < 4 && #[trigger] self.four_in_line(p, c, r, d);
            let j = 24 * c + 4 * r + d;
            assert(j / 24 == c && (j / 4) % 6 == r && j % 4 == d) by (nonlinear_arith)
                requires j == 24 * c + 4 * r + d, 0 <= c < 7, 0 <= r < 6, 0 <= d < 4;
            assert(four_at_index(g, p, j));
        }
    }

    proof fn lemma_open_columns(&self, n: int)
        requires
            0 <= n <= 7,
        ensures
            open_columns(self.grid.0@, n) == self.open_cols(n),
        decreases n,
    {
        if n > 0 {
            self.lemma_open_columns(n - 1);
        }
    }

    proof fn lemma_first_empty(&self, c: int, r: int)
        requires
            0 <= c < 7,
            0 <= r <= 6,
        ensures
            first_empty(self.grid.0@, c, r) == self.lowest_empty(c, r),
        decreases 6 - r,
    {
        if r < 6 {
            self.lemma_first_empty(c, r + 1);
        }
    }

    /// White wins with four in a line; otherwise Black does with four in a
    /// line; otherwise nobody has won.
    pub proof fn lemma_winner(&self)
        ensures
            self.winner_of() == if self.has_line(Player::White) {
                Some(Player::White)
            } else if self.has_line(Player::Black) {
                Some(Player::Black)
            } else {
                None::<Player>
            },
    {
        self.lemma_has_four(Player::White);
        self.lemma_has_four(Player::Black);
    }

    /// The legal moves are the columns whose top cell is empty, in order,
    /// for either player, unless the game is won.
    pub proof fn lemma_moves(&self, p: Player)
        ensures
            self.moves_of(p) == if self.winner_of() is Some { Seq::<Move>::empty() } else { self.open_cols(7) },
    {
        self.lemma_open_columns(7);
    }

    /// Dropping a token in a column that is not full fills its lowest empty
    /// cell and leaves the other cells.
    pub proof fn lemma_after(&self, p: Player, m: Move)
        requires
            m.0.0 < 7,
            self.at(m.0.0 as int, 5) is None,
        ensures
            0 <= self.lowest_empty(m.0.0 as int, 0) < 6,
            forall|c: int, r: int| 0 <= c < 7 && 0 <= r < 6 ==> #[trigger] self.after(p, m).at(c, r)
                == if c == m.0.0 && r == self.lowest_empty(m.0.0 as int, 0) { Some(p) } else { self.at(c, r) },
    {
        let g = self.grid.0@;
        let col = m.0.0 as int;
        self.lemma_first_empty(col, 0);
        lemma_first_empty_found(g, col, 0);
        let i = 6 * col + first_empty(g, col, 0);
        let next = self.after(p, m);
        assert(next.grid.0@ =~= g.update(i, Some(Token { player: p })));
        assert forall|c: int, r: int| 0 <= c < 7 && 0 <= r < 6 implies #[trigger] next.at(c, r)
            == if c == col && r == self.lowest_empty(col, 0) { Some(p) } else { self.at(c, r) } by {
            if 6 * c + r == i {
                assert(c == col && r == self.lowest_empty(col, 0)) by (nonlinear_arith)
                    requires 6 * c + r == 6 * col + self.lowest_empty(col, 0), 0 <= r < 6, 0 <= self.lowest_empty(col, 0) < 6;
            }
        }
    }

    closed spec fn marked(&self, i: int, k: int, p: Player) -> Option<Token> {
        if i == k { Some(Token { player: p }) } else { self.grid.0@[k] }
    }

    /// Creates an empty board.
    pub fn new() -> (r: Board)
        ensures
            forall|c: int, row: int| 0 <= c < 7 && 0 <= row < 6 ==> r.at(c, row) is None,
            r.moves_of(Player::White) == Seq::new(7, |c: int| Move(Coords(c as usize))),
            r.moves_of(Player::Black) == Seq::new(7, |c: int| Move(Coords(c as usize))),
            r.winner_of() is None,
            r.horizon() == 42,
    {
        let r = Board { grid: Grid::empty() };
        proof {
            reveal_with_fuel(empty_count, 43);
            let g = r.grid.0@;
            assert forall|p: Player, j: int| 0 <= j < 168 implies !#[trigger] four_at_index(g, p, j) by {
                let c = j / 24;
                let row = (j / 4) % 6;
                assert(g[6 * c + row] is None);
            }
            lemma_open_columns_all(g, 7);
            assert(open_columns(g, 7) =~= Seq::new(7, |c: int| Move(Coords(c as usize))));
        }
        r
    }

    /// Returns the token on cell `(col, row)`.
    pub fn cell(&self, col: usize, row: usize) -> (r: Option<Player>)
        requires
            col < 7,
            row < 6,
        ensures
            r == self.cell_spec(col as int, row as int),
    {
        match self.grid.0[6 * col + row] {
            Some(t) => Some(t.player),
            None => None,
        }
    }

    fn holds_at(&self, p: Player, c: usize, r: usize) -> (b: bool)
        requires
            c < 7,
            r < 6,
        ensures
            b == holds(self.grid.0@, p, c as int, r as int),
    {
        match self.grid.0[6 * c + r] {
            Some(t) => t.player == p,
            None => false,
        }
    }

    fn four_from(&self, p: Player, j: usize) -> (b: bool)
        requires
            j < 168,
        ensures
            b == four_at_index(self.grid.0@, p, j as int),
    {
        let c = j / 24;
        let r = (j / 4) % 6;
        let d = j % 4;
        if d == 0 {
            c + 3 < 7 && self.holds_at(p, c, r) && self.holds_at(p, c + 1, r) && self.holds_at(p, c + 2, r)
                && self.holds_at(p, c + 3, r)
        } else if d == 1 {
            r + 3 < 6 && self.holds_at(p, c, r) && self.holds_at(p, c, r + 1) && self.holds_at(p, c, r + 2)
                && self.holds_at(p, c, r + 3)
        } else if d == 2 {
            c + 3 < 7 && r + 3 < 6 && self.holds_at(p, c, r) && self.holds_at(p, c + 1, r + 1)
                && self.holds_at(p, c + 2, r + 2) && self.holds_at(p, c + 3, r + 3)
        } else {
            c + 3 < 7 && r >= 3 && self.holds_at(p, c, r) && self.holds_at(p, c + 1, r - 1)
                && self.holds_at(p, c + 2, r - 2) && self.holds_at(p, c + 3, r - 3)
        }
    }

    fn four_of(&self, p: Player) -> (b: bool)
        ensures
            b == has_four(self.grid.0@, p),
    {
        let mut j: usize = 0;
        while j < 168
            invariant
                j <= 168,
                forall|k: int| 0 <= k < j ==> !#[trigger] four_at_index(self.grid.0@, p, k),
            decreases 168 - j,
        {
            if self.four_from(p, j) {
                return true;
            }
            j = j + 1;
        }
        false
    }

    fn winning_player(&self) -> (r: Option<Player>)
        ensures
            r == self.winner_of(),
    {
        if self.four_of(Player::White) {
            Some(Player::White)
        } else if self.four_of(Player::Black) {
            Some(Player::Black)
        } else {
            None
        }
    }
}

impl Clone for Board {
    fn clone(&self) -> (r: Self)
        ensures
            r == *self,
    {
        Board { grid: Grid(self.grid.0) }
    }
}

impl TwoPlayerGame<Move> for Board {
    closed spec fn moves_of(&self, p: Player) -> Seq<Move> {
        if self.winner_of() is Some {
            Seq::empty()
        } else {
            open_columns(self.grid.0@, 7)
        }
    }

    closed spec fn after(&self, p: Player, m: Move) -> Self {
        let c = m.0.0 as int;
        let i = 6 * c + first_empty(self.grid.0@, c, 0);
        Board {
            grid: Grid([
                self.marked(i, 0, p),
                self.marked(i, 1, p),
                self.marked(i, 2, p),
                self.marked(i, 3, p),
                self.marked(i, 4, p),
                self.marked(i, 5, p),
                self.marked(i, 6, p),
                self.marked(i, 7, p),
                self.marked(i, 8, p),
                self.marked(i, 9, p),
                self.marked(i, 10, p),
                self.marked(i, 11, p),
                self.marked(i, 12, p),
                self.marked(i, 13, p),
                self.marked(i, 14, p),
                self.marked(i, 15, p),
                self.marked(i, 16, p),
                self.marked(i, 17, p),
                self.marked(i, 18, p),
                self.marked(i, 19, p),
                self.marked(i, 20, p),
                self.marked(i, 21, p),
                self.marked(i, 22, p),
                self.marked(i, 23, p),
                self.marked(i, 24, p),
                self.marked(i, 25, p),
                self.marked(i, 26, p),
                self.marked(i, 27, p),
                self.marked(i, 28, p),
                self.marked(i, 29, p),
                self.marked(i, 30, p),
                self.marked(i, 31, p),
                self.marked(i, 32, p),
                self.marked(i, 33, p),
                self.marked(i, 34, p),
                self.marked(i, 35, p),
                self.marked(i, 36, p),
                self.marked(i, 37, p),
                self.marked(i, 38, p),
                self.marked(i, 39, p),
                self.marked(i, 40, p),
                self.marked(i, 41, p)
            ]),
        }
    }

    closed spec fn winner_of(&self) -> Option<Player> {
        if has_four(self.grid.0@, Player::White) {
            Some(Player::White)
        } else if has_four(self.grid.0@, Player::Black) {
            Some(Player::Black)
        } else {
            None
        }
    }

    closed spec fn horizon(&self) -> nat {
        empty_count(self.grid.0@, 42)
    }

    proof fn lemma_play_shortens(&self, p: Player, m: Move) {
        let g = self.grid.0@;
        let c = m.0.0 as int;
        lemma_open_column_member(g, 7, m);
        lemma_first_empty_found(g, c, 0);
        let i = 6 * c + first_empty(g, c, 0);
        let next = self.after(p, m);
        assert(next.grid.0@ =~= g.update(i, Some(Token { player: p })));
        lemma_empty_count_mark(g, 42, i, Token { player: p });
    }

    proof fn lemma_clone_is_exact(&self, c: Self) {
    }

    fn possible_moves_in(&self, p: Player, moves: &mut Vec<Move>) {
        if self.winning_player().is_none() {
            let ghost start = moves@;
            let mut col: usize = 0;
            while col < 7
                invariant
                    col <= 7,
                    moves@ == start + open_columns(self.grid.0@, col as int),
                decreases 7 - col,
            {
                if self.grid.0[6 * col + 5].is_none() {
                    moves.push(Move(Coords(col)));
                }
                col = col + 1;
                proof {
                    assert(moves@ =~= start + open_columns(self.grid.0@, col as int));
                }
            }
        } else {
            assert(moves@ =~= moves@ + Seq::<Move>::empty());
        }
    }

    fn play(&mut self, p: Player, m: &Move) {
        let ghost g = self.grid.0@;
        proof {
            lemma_open_column_member(g, 7, *m);
            lemma_first_empty_found(g, m.0.0 as int, 0);
        }
        let ghost before = *self;
        let col = m.0.0;
        let mut row: usize = 0;
        while row < 6 && self.grid.0[6 * col + row].is_some()
            invariant
                col < 7,
                row <= 6,
                self.grid.0@ == g,
                first_empty(g, col as int, 0) == first_empty(g, col as int, row as int),
                first_empty(g, col as int, 0) <= 5,
            decreases 6 - row,
        {
            row = row + 1;
        }
        self.grid.0[6 * col + row] = Some(Token { player: p });
        proof {
            assert(self.grid.0@ =~= before.after(p, *m).grid.0@);
            assert(self.grid.0 =~= before.after(p, *m).grid.0);
        }
    }

    fn winner(&self) -> (r: Option<Player>) {
        self.winning_player()
    }
}

} // verus!
