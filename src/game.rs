use vstd::prelude::*;

verus! {

/// Number of columns of the board.
pub const NUM_COLS: usize = 7;

/// Number of rows of the board (the capacity of one column).
pub const NUM_ROWS: usize = 6;

/// The label of a stone, relative to the player whose turn it is.
#[allow(non_camel_case_types)]
#[derive(Debug, Clone, Copy, PartialEq, Eq, Structural)]
pub enum Token {
    OWN,
    OPPONENT,
}

/// The two players.
#[derive(Debug, Clone, Copy, PartialEq, Eq, Structural)]
pub enum Player {
    A,
    B,
}

pub open spec fn flip(t: Token) -> Token {
    match t {
        Token::OWN => Token::OPPONENT,
        Token::OPPONENT => Token::OWN,
    }
}

pub open spec fn other(p: Player) -> Player {
    match p {
        Player::A => Player::B,
        Player::B => Player::A,
    }
}

/// The mathematical model of a board: the height of each column, the occupied
/// cells keyed by (column, row), and the player to move.
pub struct GameView {
    pub heights: Seq<int>,
    pub cells: Map<(int, int), Token>,
    pub player: Player,
}

impl GameView {
    /// The empty board with player A to move.
    pub open spec fn initial() -> GameView {
        GameView { heights: Seq::new(7, |c: int| 0), cells: Map::empty(), player: Player::A }
    }

    /// Heights stay within 0..=6 and the occupied cells of a column are exactly
    /// the rows below its height.
    pub open spec fn well_formed(self) -> bool {
        &&& self.heights.len() == 7
        &&& forall|c: int| 0 <= c < 7 ==> 0 <= #[trigger] self.heights[c] <= 6
        &&& forall|k: (int, int)|
            #[trigger] self.cells.contains_key(k) <==> (0 <= k.0 < 7 && 0 <= k.1 < self.heights[k.0])
    }

    pub open spec fn can_drop(self, col: int) -> bool {
        0 <= col < 7 && self.heights[col] < 6
    }

    /// An `OWN` stone placed on top of column `col`.
    pub open spec fn dropped(self, col: int) -> GameView {
        GameView {
            heights: self.heights.update(col, self.heights[col] + 1),
            cells: self.cells.insert((col, self.heights[col]), Token::OWN),
            player: self.player,
        }
    }

    /// What a drop does: a stone when the column has room, nothing otherwise.
    pub open spec fn drop_if_legal(self, col: int) -> GameView {
        if self.can_drop(col) {
            self.dropped(col)
        } else {
            self
        }
    }

    /// The other player to move, every label exchanged.
    pub open spec fn switched(self) -> GameView {
        GameView {
            heights: self.heights,
            cells: Map::new(|k: (int, int)| self.cells.contains_key(k), |k: (int, int)| flip(self.cells[k])),
            player: other(self.player),
        }
    }

    pub open spec fn holds(self, t: Token, c: int, r: int) -> bool {
        self.cells.contains_key((c, r)) && self.cells[(c, r)] == t
    }

    /// Four stones labelled `t` from (c, r) along the step (dc, dr).
    pub open spec fn line(self, t: Token, c: int, r: int, dc: int, dr: int) -> bool {
        &&& self.holds(t, c, r)
        &&& self.holds(t, c + dc, r + dr)
        &&& self.holds(t, c + 2 * dc, r + 2 * dr)
        &&& self.holds(t, c + 3 * dc, r + 3 * dr)
    }

    pub open spec fn has_line(self, t: Token, dc: int, dr: int) -> bool {
        exists|c: int, r: int| #[trigger] self.line(t, c, r, dc, dr)
    }

    /// Four in a row of `t`: horizontal, vertical, rising or falling diagonal.
    pub open spec fn four_in_a_row(self, t: Token) -> bool {
        self.has_line(t, 1, 0) || self.has_line(t, 0, 1) || self.has_line(t, 1, 1) || self.has_line(t, 1, -1)
    }

    pub open spec fn is_full(self) -> bool {
        forall|c: int, r: int| 0 <= c < 7 && 0 <= r < 6 ==> #[trigger] self.cells.contains_key((c, r))
    }

    pub open spec fn terminal(self) -> bool {
        self.four_in_a_row(Token::OWN) || self.is_full()
    }

    /// The columns below `n` that have room, in ascending order.
    pub open spec fn open_columns(self, n: int) -> Seq<usize>
        decreases n,
    {
        if n <= 0 {
            Seq::empty()
        } else if self.heights[n - 1] < 6 {
            self.open_columns(n - 1).push((n - 1) as usize)
        } else {
            self.open_columns(n - 1)
        }
    }

    pub open spec fn legal_moves(self) -> Seq<usize> {
        if self.terminal() {
            Seq::empty()
        } else {
            self.open_columns(7)
        }
    }
}

/// Every column listed by `open_columns(n)` is below `n` and has room.
pub proof fn lemma_open_columns_have_room(g: GameView, n: int)
    requires
        0 <= n <= 7,
    ensures
        g.open_columns(n).len() <= n,
        forall|i: int|
            0 <= i < g.open_columns(n).len() ==> (#[trigger] g.open_columns(n)[i] as int) < n
                && g.can_drop(g.open_columns(n)[i] as int),
    decreases n,
{
    if n > 0 {
        lemma_open_columns_have_room(g, n - 1);
        let prev = g.open_columns(n - 1);
        if g.heights[n - 1] < 6 {
            assert forall|i: int| 0 <= i < g.open_columns(n).len() implies (#[trigger] g.open_columns(n)[i] as int) < n
                && g.can_drop(g.open_columns(n)[i] as int) by {
                if i < prev.len() {
                    assert(g.open_columns(n)[i] == prev[i]);
                }
            }
        }
    }
}

/// `open_columns(n)` is strictly ascending and lists every column below `n`
/// that has room.
pub proof fn lemma_open_columns_sorted(g: GameView, n: int)
    requires
        0 <= n <= 7,
    ensures
        forall|i: int, j: int|
            0 <= i < j < g.open_columns(n).len() ==> #[trigger] g.open_columns(n)[i] < #[trigger] g.open_columns(n)[j],
        forall|c: int| 0 <= c < n && g.heights[c] < 6 ==> #[trigger] g.open_columns(n).contains(c as usize),
    decreases n,
{
    if n > 0 {
        lemma_open_columns_sorted(g, n - 1);
        lemma_open_columns_have_room(g, n - 1);
        let prev = g.open_columns(n - 1);
        let cur = g.open_columns(n);
        if g.heights[n - 1] < 6 {
            assert forall|i: int, j: int| 0 <= i < j < cur.len() implies #[trigger] cur[i] < #[trigger] cur[j] by {
                assert(cur[i] == prev[i]);
                if j < prev.len() {
                    assert(cur[j] == prev[j]);
                }
            }
            assert forall|c: int| 0 <= c < n && g.heights[c] < 6 implies #[trigger] cur.contains(c as usize) by {
                if c < n - 1 {
                    assert(prev.contains(c as usize));
                    let k = choose|k: int| 0 <= k < prev.len() && prev[k] == c as usize;
                    assert(cur[k] == prev[k]);
                } else {
                    assert(cur[prev.len() as int] == c as usize);
                }
            }
        }
    }
}

/// `open_columns(n)` is empty exactly when every column below `n` is full.
pub proof fn lemma_open_columns_empty(g: GameView, n: int)
    requires
        0 <= n <= 7,
    ensures
        g.open_columns(n).len() == 0 <==> forall|c: int| 0 <= c < n ==> #[trigger] g.heights[c] >= 6,
    decreases n,
{
    if n > 0 {
        lemma_open_columns_empty(g, n - 1);
        if g.heights[n - 1] < 6 {
            assert(g.open_columns(n).len() > 0);
        }
    }
}

/// One call on a board: a drop into a column, or a turn switch.
pub enum Action {
    Drop(int),
    Switch,
}

/// The number of drops into column `c` in `acts`.
pub open spec fn count_of(acts: Seq<Action>, c: int) -> int
    decreases acts.len(),
{
    if acts.len() == 0 {
        0
    } else {
        count_of(acts.drop_last(), c) + match acts.last() {
            Action::Drop(d) => if d == c {
                1int
            } else {
                0int
            },
            Action::Switch => 0int,
        }
    }
}

/// The board after each action of `acts` in turn, a drop as
/// `Game::play_move` makes it and a switch as `Game::next_player` does.
pub open spec fn play_all(g: GameView, acts: Seq<Action>) -> GameView
    decreases acts.len(),
{
    if acts.len() == 0 {
        g
    } else {
        let p = play_all(g, acts.drop_last());
        match acts.last() {
            Action::Drop(c) => p.drop_if_legal(c),
            Action::Switch => p.switched(),
        }
    }
}

/// From the empty board, drops into columns of the board, with turn switches
/// anywhere between them, that put no more than six stones into any column
/// leave each column as high as the number of drops into it, which is never
/// more than six.
pub proof fn lemma_heights_count_drops(acts: Seq<Action>)
    requires
        forall|i: int| 0 <= i < acts.len() ==> (#[trigger] acts[i] matches Action::Drop(c) ==> 0 <= c < 7),
        forall|c: int| 0 <= c < 7 ==> #[trigger] count_of(acts, c) <= 6,
    ensures
        play_all(GameView::initial(), acts).heights.len() == 7,
        forall|c: int|
            0 <= c < 7 ==> #[trigger] play_all(GameView::initial(), acts).heights[c] == count_of(acts, c) <= 6,
    decreases acts.len(),
{
    if acts.len() > 0 {
        let prefix = acts.drop_last();
        assert forall|c: int| 0 <= c < 7 implies #[trigger] count_of(prefix, c) <= 6 by {
            assert(count_of(acts, c) <= 6);
        }
        assert forall|i: int| 0 <= i < prefix.len() implies (#[trigger] prefix[i] matches Action::Drop(c) ==> 0 <= c
            < 7) by {
            assert(prefix[i] == acts[i]);
        }
        lemma_heights_count_drops(prefix);
        let p = play_all(GameView::initial(), prefix);
        match acts.last() {
            Action::Drop(m) => {
                assert(acts[acts.len() - 1] matches Action::Drop(c) ==> 0 <= c < 7);
                assert(count_of(acts, m) <= 6);
                assert(p.can_drop(m));
            },
            Action::Switch => {},
        }
        assert forall|c: int| 0 <= c < 7 implies #[trigger] play_all(GameView::initial(), acts).heights[c]
            == count_of(acts, c) <= 6 by {
            assert(count_of(acts, c) <= 6);
        }
    }
}

/// No legal move is left exactly when the game has ended.
pub proof fn lemma_no_moves_iff_terminal(g: GameView)
    requires
        g.well_formed(),
    ensures
        g.legal_moves().len() == 0 <==> g.terminal(),
{
    lemma_open_columns_empty(g, 7);
    if !g.terminal() {
        let (c, r) = choose|c: int, r: int| 0 <= c < 7 && 0 <= r < 6 && !#[trigger] g.cells.contains_key((c, r));
        assert(g.heights[c] < 6);
    }
}

proof fn lemma_line_switched(g: GameView, t: Token, dc: int, dr: int)
    ensures
        g.switched().has_line(flip(t), dc, dr) == g.has_line(t, dc, dr),
{
    let s = g.switched();
    if g.has_line(t, dc, dr) {
        let (c, r) = choose|c: int, r: int| #[trigger] g.line(t, c, r, dc, dr);
        assert(s.line(flip(t), c, r, dc, dr));
    }
    if s.has_line(flip(t), dc, dr) {
        let (c, r) = choose|c: int, r: int| #[trigger] s.line(flip(t), c, r, dc, dr);
        assert(g.line(t, c, r, dc, dr));
    }
}

/// Switching the turn keeps the board well formed, turns every `OWN` label
/// into `OPPONENT` and back, and keeps every four in a row: what was four of
/// the player to move becomes four of the opponent, and the reverse.
pub proof fn lemma_switch_relabels(g: GameView)
    requires
        g.well_formed(),
    ensures
        g.switched().well_formed(),
        g.switched().player != g.player,
        forall|k: (int, int)|
            #[trigger] g.switched().cells.contains_key(k) == g.cells.contains_key(k),
        forall|k: (int, int)|
            g.cells.contains_key(k) ==> #[trigger] g.switched().cells[k] == flip(g.cells[k]),
        g.switched().four_in_a_row(Token::OPPONENT) == g.four_in_a_row(Token::OWN),
        g.switched().four_in_a_row(Token::OWN) == g.four_in_a_row(Token::OPPONENT),
{
    lemma_line_switched(g, Token::OWN, 1, 0);
    lemma_line_switched(g, Token::OWN, 0, 1);
    lemma_line_switched(g, Token::OWN, 1, 1);
    lemma_line_switched(g, Token::OWN, 1, -1);
    lemma_line_switched(g, Token::OPPONENT, 1, 0);
    lemma_line_switched(g, Token::OPPONENT, 0, 1);
    lemma_line_switched(g, Token::OPPONENT, 1, 1);
    lemma_line_switched(g, Token::OPPONENT, 1, -1);
}

/// The game state: stones per column, the cells and the player to move. A cell
/// holds the label of its stone relative to the player to move.
#[derive(Debug, Clone)]
pub struct Game {
    num_stones: [usize; NUM_COLS],
    cells: Vec<Option<Token>>,
    current_player: Player,
}

impl View for Game {
    type V = GameView;

    closed spec fn view(&self) -> GameView {
        GameView {
            heights: Seq::new(7, |c: int| self.num_stones@[c] as int),
            cells: Map::new(
                |k: (int, int)| 0 <= k.0 < 7 && 0 <= k.1 < 6 && self.cells@[k.0 * 6 + k.1] is Some,
                |k: (int, int)| self.cells@[k.0 * 6 + k.1]->Some_0,
            ),
            player: self.current_player,
        }
    }
}

impl Game {
    pub closed spec fn storage_ok(&self) -> bool {
        self.cells@.len() == 42
    }

    pub open spec fn wf(&self) -> bool {
        self.storage_ok() && self@.well_formed()
    }

    pub fn new() -> (r: Game)
        ensures
            r.wf(),
            r@ == GameView::initial(),
    {
        let mut cells: Vec<Option<Token>> = Vec::new();
        let mut i: usize = 0;
        while i < 42
            invariant
                i <= 42,
                cells@.len() == i,
                forall|j: int| 0 <= j < i ==> cells@[j] is None,
            decreases 42 - i,
        {
            cells.push(None);
            i = i + 1;
        }
        let g = Game { num_stones: [0usize; NUM_COLS], cells, current_player: Player::A };
        assert(g@.heights =~= GameView::initial().heights);
        assert(g@.cells =~= GameView::initial().cells);
        g
    }

    /// A copy of this state.
    pub fn snapshot(&self) -> (r: Game)
        requires
            self.wf(),
        ensures
            r.wf(),
            r@ == self@,
    {
        let mut cells: Vec<Option<Token>> = Vec::new();
        let mut i: usize = 0;
        while i < 42
            invariant
                self.wf(),
                i <= 42,
                cells@ == self.cells@.subrange(0, i as int),
            decreases 42 - i,
        {
            cells.push(self.cells[i]);
            i = i + 1;
        }
        assert(cells@ =~= self.cells@);
        Game { num_stones: self.num_stones, cells, current_player: self.current_player }
    }

    pub fn current_player(&self) -> (r: Player)
        ensures
            r == self@.player,
    {
        self.current_player
    }

    /// The stones in column `col` (0 for a column off the board).
    pub fn column_height(&self, col: usize) -> (r: usize)
        requires
            self.wf(),
        ensures
            r == (if col < 7 { self@.heights[col as int] } else { 0 }),
    {
        if col < NUM_COLS {
            self.num_stones[col]
        } else {
            0
        }
    }

    /// The label at (col, row), `None` for an empty cell or one off the board.
    pub fn cell(&self, col: usize, row: usize) -> (r: Option<Token>)
        requires
            self.wf(),
        ensures
            r == (if self@.cells.contains_key((col as int, row as int)) {
                Some(self@.cells[(col as int, row as int)])
            } else {
                None
            }),
    {
        if col < NUM_COLS && row < NUM_ROWS {
            self.cells[col * NUM_ROWS + row]
        } else {
            None
        }
    }

    fn is_own(&self, col: usize, row: usize) -> (r: bool)
        requires
            self.wf(),
        ensures
            r == self@.holds(Token::OWN, col as int, row as int),
    {
        match self.cell(col, row) {
            Some(t) => t == Token::OWN,
            None => false,
        }
    }
    /// Drops an `OWN` stone into `col` and returns the row it lands on;
    /// `None`, with nothing changed, for a column off the board or full.
    pub fn play_move(&mut self, col: usize) -> (r: Option<usize>)
        requires
            old(self).wf(),
        ensures
            final(self).wf(),
            r == (if old(self)@.can_drop(col as int) {
                Some(old(self)@.heights[col as int] as usize)
            } else {
                None
            }),
            final(self)@ == old(self)@.drop_if_legal(col as int),
    {
        if col >= NUM_COLS {
            return None;
        }
        let row = self.num_stones[col];
        if row >= NUM_ROWS {
            return None;
        }
        let ghost before = self@;
        self.num_stones[col] = row + 1;
        self.cells.set(col * NUM_ROWS + row, Some(Token::OWN));
        assert(self@.heights =~= before.dropped(col as int).heights);
        assert forall|k: (int, int)|
            #[trigger] self@.cells.contains_key(k) == before.dropped(col as int).cells.contains_key(k) by {
            if 0 <= k.0 < 7 && 0 <= k.1 < 6 && k != (col as int, row as int) {
                assert(k.0 * 6 + k.1 != col * 6 + row);
            }
        }
        assert(self@.cells =~= before.dropped(col as int).cells) by {
            assert forall|k: (int, int)| #[trigger] self@.cells.contains_key(k) implies self@.cells[k]
                == before.dropped(col as int).cells[k] by {
                if k != (col as int, row as int) {
                    assert(k.0 * 6 + k.1 != col * 6 + row);
                }
            }
        }
        Some(row)
    }

    /// Hands the move to the other player and exchanges every label.
    pub fn next_player(&mut self)
        requires
            old(self).wf(),
        ensures
            final(self).wf(),
            final(self)@ == old(self)@.switched(),
    {
        let ghost before = *self;
        self.current_player = match self.current_player {
            Player::A => Player::B,
            Player::B => Player::A,
        };
        let mut i: usize = 0;
        while i < 42
            invariant
                i <= 42,
                self.cells@.len() == 42,
                self.num_stones == before.num_stones,
                self.current_player == other(before.current_player),
                before.wf(),
                forall|j: int| 0 <= j < i ==> (#[trigger] self.cells@[j] is Some) == (before.cells@[j] is Some),
                forall|j: int| 0 <= j < i && #[trigger] self.cells@[j] is Some ==> self.cells@[j]->Some_0 == flip(before.cells@[j]->Some_0),
                forall|j: int| i <= j < 42 ==> #[trigger] self.cells@[j] == before.cells@[j],
            decreases 42 - i,
        {
            let t = match self.cells[i] {
                Some(Token::OWN) => Some(Token::OPPONENT),
                Some(Token::OPPONENT) => Some(Token::OWN),
                None => None,
            };
            self.cells.set(i, t);
            i = i + 1;
        }
        assert(self@.heights =~= before@.switched().heights);
        assert(self@.cells =~= before@.switched().cells);
    }

    fn check_horizontal(&self) -> (r: bool)
        requires
            self.wf(),
        ensures
            r == self@.has_line(Token::OWN, 1, 0),
    {
        let mut col: usize = 0;
        while col < NUM_COLS - 3
            invariant
                self.wf(),
                col <= 4,
                forall|c: int, r: int| 0 <= c < col ==> !#[trigger] self@.line(Token::OWN, c, r, 1, 0),
            decreases 4 - col,
        {
            let mut row: usize = 0;
            while row < self.num_stones[col]
                invariant
                    self.wf(),
                    col < 4,
                    row <= self@.heights[col as int],
                    forall|c: int, r: int| 0 <= c < col ==> !#[trigger] self@.line(Token::OWN, c, r, 1, 0),
                    forall|r: int| 0 <= r < row ==> !#[trigger] self@.line(Token::OWN, col as int, r, 1, 0),
                decreases 6 - row,
            {
                if self.is_own(col, row) && self.is_own(col + 1, row) && self.is_own(col + 2, row)
                    && self.is_own(col + 3, row) {
                    assert(self@.line(Token::OWN, col as int, row as int, 1, 0));
                    return true;
                }
                row = row + 1;
            }
            assert forall|r: int| !#[trigger] self@.line(Token::OWN, col as int, r, 1, 0) by {
                assert(self@.cells.contains_key((col as int, r)) ==> r < row);
            }
            col = col + 1;
        }
        assert forall|c: int, r: int| !#[trigger] self@.line(Token::OWN, c, r, 1, 0) by {
            assert(self@.cells.contains_key((c + 3, r)) ==> c + 3 < 7);
        }
        false
    }

    fn check_vertical(&self) -> (r: bool)
        requires
            self.wf(),
        ensures
            r == self@.has_line(Token::OWN, 0, 1),
    {
        let mut col: usize = 0;
        while col < NUM_COLS
            invariant
                self.wf(),
                col <= 7,
                forall|c: int, r: int| 0 <= c < col ==> !#[trigger] self@.line(Token::OWN, c, r, 0, 1),
            decreases 7 - col,
        {
            let h = self.num_stones[col];
            if h > 3 {
                let mut row: usize = 0;
                while row < h - 3
                    invariant
                        self.wf(),
                        col < 7,
                        h == self@.heights[col as int],
                        3 < h,
                        row <= h - 3,
                        forall|c: int, r: int| 0 <= c < col ==> !#[trigger] self@.line(Token::OWN, c, r, 0, 1),
                        forall|r: int| 0 <= r < row ==> !#[trigger] self@.line(Token::OWN, col as int, r, 0, 1),
                    decreases h - row,
                {
                    if self.is_own(col, row) && self.is_own(col, row + 1) && self.is_own(col, row + 2)
                        && self.is_own(col, row + 3) {
                        assert(self@.line(Token::OWN, col as int, row as int, 0, 1));
                        return true;
                    }
                    row = row + 1;
                }
            }
            assert forall|r: int| !#[trigger] self@.line(Token::OWN, col as int, r, 0, 1) by {
                assert(self@.cells.contains_key((col as int, r + 3)) ==> r + 3 < h);
            }
            col = col + 1;
        }
        assert forall|c: int, r: int| !#[trigger] self@.line(Token::OWN, c, r, 0, 1) by {
            assert(self@.cells.contains_key((c, r)) ==> 0 <= c < 7);
        }
        false
    }

    fn check_diag_fall(&self) -> (r: bool)
        requires
            self.wf(),
        ensures
            r == self@.has_line(Token::OWN, 1, -1),
    {
        let mut col: usize = 0;
        while col < NUM_COLS - 3
            invariant
                self.wf(),
                col <= 4,
                forall|c: int, r: int| 0 <= c < col ==> !#[trigger] self@.line(Token::OWN, c, r, 1, -1),
            decreases 4 - col,
        {
            let h = self.num_stones[col];
            if h > 3 {
                let mut row: usize = 3;
                while row < h
                    invariant
                        self.wf(),
                        col < 4,
                        h == self@.heights[col as int],
                        3 <= row <= h,
                        forall|c: int, r: int| 0 <= c < col ==> !#[trigger] self@.line(Token::OWN, c, r, 1, -1),
                        forall|r: int| 0 <= r < row ==> !#[trigger] self@.line(Token::OWN, col as int, r, 1, -1),
                    decreases h - row,
                {
                    if self.is_own(col, row) && self.is_own(col + 1, row - 1) && self.is_own(col + 2, row - 2)
                        && self.is_own(col + 3, row - 3) {
                        assert(self@.line(Token::OWN, col as int, row as int, 1, -1));
                        return true;
                    }
                    row = row + 1;
                }
            }
            assert forall|r: int| !#[trigger] self@.line(Token::OWN, col as int, r, 1, -1) by {
                assert(self@.cells.contains_key((col as int, r)) ==> r < h);
                assert(self@.cells.contains_key((col + 3, r - 3)) ==> r - 3 >= 0);
            }
            col = col + 1;
        }
        assert forall|c: int, r: int| !#[trigger] self@.line(Token::OWN, c, r, 1, -1) by {
            assert(self@.cells.contains_key((c + 3, r - 3)) ==> c + 3 < 7);
        }
        false
    }

    fn check_diag_rise(&self) -> (r: bool)
        requires
            self.wf(),
        ensures
            r == self@.has_line(Token::OWN, 1, 1),
    {
        let mut col: usize = 0;
        while col < NUM_COLS - 3
            invariant
                self.wf(),
                col <= 4,
                forall|c: int, r: int| 0 <= c < col ==> !#[trigger] self@.line(Token::OWN, c, r, 1, 1),
            decreases 4 - col,
        {
            let mut row: usize = 0;
            while row < self.num_stones[col]
                invariant
                    self.wf(),
                    col < 4,
                    row <= self@.heights[col as int],
                    forall|c: int, r: int| 0 <= c < col ==> !#[trigger] self@.line(Token::OWN, c, r, 1, 1),
                    forall|r: int| 0 <= r < row ==> !#[trigger] self@.line(Token::OWN, col as int, r, 1, 1),
                decreases 6 - row,
            {
                if self.is_own(col, row) && self.is_own(col + 1, row + 1) && self.is_own(col + 2, row + 2)
                    && self.is_own(col + 3, row + 3) {
                    assert(self@.line(Token::OWN, col as int, row as int, 1, 1));
                    return true;
                }
                row = row + 1;
            }
            assert forall|r: int| !#[trigger] self@.line(Token::OWN, col as int, r, 1, 1) by {
                assert(self@.cells.contains_key((col as int, r)) ==> r < row);
            }
            col = col + 1;
        }
        assert forall|c: int, r: int| !#[trigger] self@.line(Token::OWN, c, r, 1, 1) by {
            assert(self@.cells.contains_key((c + 3, r + 3)) ==> c + 3 < 7);
        }
        false
    }

    /// Whether the player to move has four in a row.
    pub fn is_win(&self) -> (r: bool)
        requires
            self.wf(),
        ensures
            r == self@.four_in_a_row(Token::OWN),
    {
        self.check_horizontal() || self.check_vertical() || self.check_diag_rise() || self.check_diag_fall()
    }

    fn board_full(&self) -> (r: bool)
        requires
            self.wf(),
        ensures
            r == self@.is_full(),
    {
        let mut col: usize = 0;
        while col < NUM_COLS
            invariant
                self.wf(),
                col <= 7,
                forall|c: int| 0 <= c < col ==> #[trigger] self@.heights[c] == 6,
            decreases 7 - col,
        {
            if self.num_stones[col] < NUM_ROWS {
                assert(!self@.cells.contains_key((col as int, 5)));
                return false;
            }
            col = col + 1;
        }
        assert forall|c: int, r: int| 0 <= c < 7 && 0 <= r < 6 implies #[trigger] self@.cells.contains_key((c, r)) by {
            assert(self@.heights[c] == 6);
        }
        true
    }

    /// Whether the game has ended: a win for the player to move or a full board.
    pub fn is_terminal(&self) -> (r: bool)
        requires
            self.wf(),
        ensures
            r == self@.terminal(),
    {
        self.is_win() || self.board_full()
    }

    /// The columns with room, ascending; none once the game has ended.
    pub fn legal_moves(&self) -> (r: Vec<usize>)
        requires
            self.wf(),
        ensures
            r@ == self@.legal_moves(),
    {
        if self.is_terminal() {
            return Vec::new();
        }
        let mut moves: Vec<usize> = Vec::new();
        let mut col: usize = 0;
        while col < NUM_COLS
            invariant
                self.wf(),
                col <= 7,
                moves@ == self@.open_columns(col as int),
            decreases 7 - col,
        {
            if self.num_stones[col] < NUM_ROWS {
                moves.push(col);
            }
            col = col + 1;
        }
        moves
    }
}

} // verus!
