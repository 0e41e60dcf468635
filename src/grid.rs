use rand::Rng;
use vstd::prelude::*;

verus! {

/// How hard a game is: it fixes the number of mines on the board.
#[derive(Clone, Copy, Debug, PartialEq, Eq, Structural)]
pub enum Difficulty {
    Easy,
    Medium,
    Hard,
}

impl Difficulty {
    /// The number of mines a board of this difficulty holds.
    pub open spec fn mine_total(self) -> int {
        match self {
            Difficulty::Easy => 10,
            Difficulty::Medium => 35,
            Difficulty::Hard => 110,
        }
    }
}

/// A cell lies on a board of `height` rows and `width` columns, counted from 1.
pub open spec fn in_bounds(c: (i32, i32), height: int, width: int) -> bool {
    1 <= c.0 <= width && 1 <= c.1 <= height
}

/// Every cell of a `height` by `width` board.
pub open spec fn board_cells(height: int, width: int) -> Set<(i32, i32)> {
    Set::new(|c: (i32, i32)| in_bounds(c, height, width))
}

/// The cells of row `y` in columns `1..=w`.
spec fn row_cells(y: i32, w: int) -> Set<(i32, i32)> {
    Set::new(|c: (i32, i32)| 1 <= c.0 <= w && c.1 == y)
}

proof fn lemma_row_cells_len(y: i32, w: int)
    requires
        0 <= w <= i32::MAX,
    ensures
        row_cells(y, w).finite(),
        row_cells(y, w).len() == w,
    decreases w,
{
    if w == 0 {
        assert(row_cells(y, w) =~= Set::empty());
    } else {
        lemma_row_cells_len(y, w - 1);
        assert(row_cells(y, w - 1).insert((w as i32, y)) =~= row_cells(y, w));
    }
}

/// A board of `height` by `width` cells has exactly `height * width` of them.
proof fn lemma_board_cells_len(height: int, width: int)
    requires
        0 <= height <= i32::MAX,
        0 <= width <= i32::MAX,
    ensures
        board_cells(height, width).finite(),
        board_cells(height, width).len() == height * width,
    decreases height,
{
    if height == 0 {
        assert(board_cells(height, width) =~= Set::empty());
    } else {
        lemma_board_cells_len(height - 1, width);
        lemma_row_cells_len(height as i32, width);
        let prev = board_cells(height - 1, width);
        let row = row_cells(height as i32, width);
        assert(prev.disjoint(row));
        assert(prev + row =~= board_cells(height, width));
        vstd::set_lib::lemma_set_disjoint_lens(prev, row);
        assert(height * width == (height - 1) * width + width) by (nonlinear_arith);
    }
}


/// The set `s` with `c` added if it was absent, removed if it was present.
pub open spec fn toggled(s: Set<(i32, i32)>, c: (i32, i32)) -> Set<(i32, i32)> {
    if s.contains(c) {
        s.remove(c)
    } else {
        s.insert(c)
    }
}

/// The abstract state of a minefield.
pub ghost struct GridView {
    pub height: int,
    pub width: int,
    pub mines: Set<(i32, i32)>,
    pub revealed: Set<(i32, i32)>,
    pub flagged: Set<(i32, i32)>,
    pub flag_count: int,
    pub mine_count: int,
}

impl GridView {
    /// Whether the point `(x, y)` of the integer plane holds a mine.
    pub open spec fn mine_at(self, x: int, y: int) -> bool {
        i32::MIN <= x <= i32::MAX && i32::MIN <= y <= i32::MAX && self.mines.contains(
            (x as i32, y as i32),
        )
    }

    /// 1 where `(x, y)` holds a mine, else 0.
    pub open spec fn mine_indicator(self, x: int, y: int) -> int {
        if self.mine_at(x, y) {
            1
        } else {
            0
        }
    }

    /// The number of mines among the eight neighbours of `(x, y)`.
    pub open spec fn adjacent_mines(self, x: int, y: int) -> int {
        self.mine_indicator(x - 1, y - 1) + self.mine_indicator(x - 1, y) + self.mine_indicator(
            x - 1,
            y + 1,
        ) + self.mine_indicator(x, y - 1) + self.mine_indicator(x, y + 1) + self.mine_indicator(
            x + 1,
            y - 1,
        ) + self.mine_indicator(x + 1, y) + self.mine_indicator(x + 1, y + 1)
    }

    /// The flags cover the mines exactly.
    pub open spec fn flags_match_mines(self) -> bool {
        self.flagged == self.mines
    }

    /// Every cell of the board is revealed or holds a mine.
    pub open spec fn all_safe_revealed(self) -> bool {
        self.revealed + self.mines == board_cells(self.height, self.width)
    }

    /// The game is won.
    pub open spec fn won(self) -> bool {
        self.flags_match_mines() || self.all_safe_revealed()
    }

    /// The state after revealing `c`: a mine leaves it as it was, any other
    /// cell joins the revealed set.
    pub open spec fn after_reveal(self, c: (i32, i32)) -> GridView {
        if self.mines.contains(c) {
            self
        } else {
            GridView { revealed: self.revealed.insert(c), ..self }
        }
    }

    /// The state after toggling the flag on `c`.
    pub open spec fn after_flag(self, c: (i32, i32)) -> GridView {
        GridView {
            flagged: toggled(self.flagged, c),
            flag_count: toggled(self.flagged, c).len() as int,
            ..self
        }
    }
}

/// What the display shows for one cell.
#[derive(Clone, Copy, Debug, PartialEq, Eq, Structural)]
pub enum CellState {
    /// The player has put a flag on the cell.
    Flagged,
    /// The cell holds a mine.
    Mine,
    /// The cell is revealed; the field is the number of adjacent mines.
    Revealed(u8),
    /// The cell is not revealed yet.
    Hidden,
}

/// A rectangular minefield with the player's revealed and flagged cells.
pub struct Grid {
    height: i32,
    width: i32,
    flags: i32,
    mines: i32,
    mine_loc: Vec<(i32, i32)>,
    seen: Vec<(i32, i32)>,
    flagged: Vec<(i32, i32)>,
}

/// Every cell of `s` lies on the board.
pub open spec fn cells_in_bounds(s: Seq<(i32, i32)>, height: int, width: int) -> bool {
    forall|i: int| 0 <= i < s.len() ==> #[trigger] in_bounds(s[i], height, width)
}

impl View for Grid {
    type V = GridView;

    closed spec fn view(&self) -> GridView {
        GridView {
            height: self.height as int,
            width: self.width as int,
            mines: self.mine_loc@.to_set(),
            revealed: self.seen@.to_set(),
            flagged: self.flagged@.to_set(),
            flag_count: self.flags as int,
            mine_count: self.mines as int,
        }
    }
}

impl Grid {
    /// The representation invariant.
    pub closed spec fn wf(&self) -> bool {
        &&& 0 < self.height
        &&& 0 < self.width
        &&& self.height * self.width <= i32::MAX
        &&& self.mine_loc@.no_duplicates()
        &&& 0 < self.mine_loc.len() < self.height * self.width
        &&& self.mines == self.mine_loc.len()
        &&& cells_in_bounds(self.mine_loc@, self.height as int, self.width as int)
        &&& self.seen@.no_duplicates()
        &&& cells_in_bounds(self.seen@, self.height as int, self.width as int)
        &&& forall|c: (i32, i32)| self.seen@.contains(c) ==> !self.mine_loc@.contains(c)
        &&& self.flagged@.no_duplicates()
        &&& cells_in_bounds(self.flagged@, self.height as int, self.width as int)
        &&& self.flags == self.flagged.len()
    }

    /// A new board of `height` rows and `width` columns with the number of
    /// mines that `difficulty` asks for, at distinct cells drawn at random,
    /// and nothing revealed or flagged.
    pub fn new(height: i32, width: i32, difficulty: Difficulty) -> (r: Grid)
        requires
            0 < height,
            0 < width,
            height * width <= i32::MAX,
            difficulty.mine_total() < height * width,
        ensures
            r.wf(),
            r@.height == height,
            r@.width == width,
            r@.mine_count == difficulty.mine_total(),
            r@.mines.len() == difficulty.mine_total(),
            r@.mines.subset_of(board_cells(height as int, width as int)),
            r@.revealed == Set::<(i32, i32)>::empty(),
            r@.flagged == Set::<(i32, i32)>::empty(),
            r@.flag_count == 0,
    {
        let num_mine: usize = match difficulty {
            Difficulty::Easy => 10,
            Difficulty::Medium => 35,
            Difficulty::Hard => 110,
        };
        let mine_loc = gen_mines(height, width, num_mine);
        let grid = Grid {
            height,
            width,
            flags: 0,
            mines: num_mine as i32,
            mine_loc,
            seen: Vec::new(),
            flagged: Vec::new(),
        };
        proof {
            grid.lemma_wf_view();
            assert(grid@.revealed =~= Set::<(i32, i32)>::empty());
            assert(grid@.flagged =~= Set::<(i32, i32)>::empty());
        }
        grid
    }

    /// A board with its mines at the cells of `mine_loc` and nothing
    /// revealed or flagged. `None` unless both sides are positive, the board
    /// has at most `i32::MAX` cells, and `mine_loc` holds distinct cells of
    /// the board, at least one and fewer than the board has.
    pub fn from_mines(height: i32, width: i32, mine_loc: Vec<(i32, i32)>) -> (r: Option<Grid>)
        ensures
            r is Some <==> {
                &&& 0 < height
                &&& 0 < width
                &&& height * width <= i32::MAX
                &&& mine_loc@.no_duplicates()
                &&& cells_in_bounds(mine_loc@, height as int, width as int)
                &&& 0 < mine_loc.len() < height * width
            },
            r matches Some(g) ==> {
                &&& g.wf()
                &&& g@.height == height
                &&& g@.width == width
                &&& g@.mines == mine_loc@.to_set()
                &&& g@.mine_count == mine_loc.len()
                &&& g@.revealed == Set::<(i32, i32)>::empty()
                &&& g@.flagged == Set::<(i32, i32)>::empty()
                &&& g@.flag_count == 0
            },
    {
        if height <= 0 || width <= 0 {
            return None;
        }
        proof {
            assert(0 < height * width <= i32::MAX as int * i32::MAX as int) by (nonlinear_arith)
                requires
                    0 < height <= i32::MAX,
                    0 < width <= i32::MAX,
            ;
        }
        let area: i64 = (height as i64) * (width as i64);
        if area > i32::MAX as i64 {
            return None;
        }
        let n: usize = mine_loc.len();
        if n == 0 || n >= area as usize {
            return None;
        }
        let mut i: usize = 0;
        while i < n
            invariant
                n == mine_loc.len(),
                i <= n,
                cells_in_bounds(mine_loc@.subrange(0, i as int), height as int, width as int),
                forall|a: int, b: int| 0 <= a < b < i ==> mine_loc@[a] != mine_loc@[b],
            decreases n - i,
        {
            let c = mine_loc[i];
            if c.0 < 1 || c.0 > width || c.1 < 1 || c.1 > height {
                proof {
                    assert(!in_bounds(mine_loc@[i as int], height as int, width as int));
                }
                return None;
            }
            let mut j: usize = 0;
            while j < i
                invariant
                    n == mine_loc.len(),
                    j <= i < n,
                    c == mine_loc@[i as int],
                    forall|a: int| 0 <= a < j ==> mine_loc@[a] != c,
                decreases i - j,
            {
                if mine_loc[j].0 == c.0 && mine_loc[j].1 == c.1 {
                    proof {
                        assert(mine_loc@[j as int] == mine_loc@[i as int]);
                    }
                    return None;
                }
                j = j + 1;
            }
            proof {
                assert forall|k: int| 0 <= k < i + 1 implies #[trigger] in_bounds(
                    mine_loc@.subrange(0, i + 1)[k],
                    height as int,
                    width as int,
                ) by {
                    if k < i {
                        assert(mine_loc@.subrange(0, i + 1)[k] == mine_loc@.subrange(0, i as int)[k]);
                    }
                }
            }
            i = i + 1;
        }
        proof {
            assert(mine_loc@.subrange(0, n as int) =~= mine_loc@);
        }
        let grid = Grid {
            height,
            width,
            flags: 0,
            mines: n as i32,
            mine_loc,
            seen: Vec::new(),
            flagged: Vec::new(),
        };
        proof {
            assert(grid@.revealed =~= Set::<(i32, i32)>::empty());
            assert(grid@.flagged =~= Set::<(i32, i32)>::empty());
        }
        Some(grid)
    }

    /// Reveals the cell `(x, y)`. A mine is reported by returning `false`
    /// and is not recorded as revealed; any other cell joins the revealed
    /// set (again, if it was there already) and `true` is returned.
    pub fn add_to_seen(&mut self, x: i32, y: i32) -> (r: bool)
        requires
            old(self).wf(),
            in_bounds((x, y), old(self)@.height, old(self)@.width),
        ensures
            final(self).wf(),
            r == !old(self)@.mines.contains((x, y)),
            final(self)@ == old(self)@.after_reveal((x, y)),
    {
        if contains_cell(&self.mine_loc, (x, y)) {
            return false;
        }
        if !contains_cell(&self.seen, (x, y)) {
            self.seen.push((x, y));
            proof {
                assert forall|a: int, b: int| 0 <= a < b < self.seen@.len() implies self.seen@[a]
                    != self.seen@[b] by {
                    if b == self.seen@.len() - 1 {
                        assert(old(self).seen@.contains(self.seen@[a]));
                    }
                }
                assert forall|i: int| 0 <= i < self.seen@.len() implies #[trigger] in_bounds(
                    self.seen@[i],
                    self.height as int,
                    self.width as int,
                ) by {
                    if i < old(self).seen@.len() {
                        assert(in_bounds(old(self).seen@[i], self.height as int, self.width as int));
                    }
                }
                assert forall|c: (i32, i32)| self.seen@.contains(c) implies !self.mine_loc@.contains(
                    c,
                ) by {
                    let k = choose|k: int| 0 <= k < self.seen@.len() && self.seen@[k] == c;
                    if k < old(self).seen@.len() {
                        assert(old(self).seen@.contains(c));
                    }
                }
                old(self).seen@.lemma_push_to_set_commute((x, y));
            }
        } else {
            assert(old(self)@.revealed.insert((x, y)) =~= old(self)@.revealed);
        }
        true
    }

    /// Puts a flag on `(x, y)`, or takes it away if one is there.
    pub fn flag(&mut self, x: i32, y: i32)
        requires
            old(self).wf(),
            in_bounds((x, y), old(self)@.height, old(self)@.width),
        ensures
            final(self).wf(),
            final(self)@ == old(self)@.after_flag((x, y)),
    {
        proof {
            self.lemma_wf_view();
        }
        match position_of(&self.flagged, (x, y)) {
            Some(i) => {
                proof {
                    lemma_remove_no_dup(self.flagged@, i as int);
                }
                self.flagged.remove(i);
                self.flags = self.flags - 1;
                proof {
                    assert forall|k: int| 0 <= k < self.flagged@.len() implies #[trigger] in_bounds(
                        self.flagged@[k],
                        self.height as int,
                        self.width as int,
                    ) by {
                        let k2 = if k < i { k } else { k + 1 };
                        assert(self.flagged@[k] == old(self).flagged@[k2]);
                        assert(in_bounds(old(self).flagged@[k2], self.height as int, self.width as int));
                    }
                    self.flagged@.unique_seq_to_set();
                }
            },
            None => {
                proof {
                    let grown = old(self)@.flagged.insert((x, y));
                    lemma_board_cells_len(self.height as int, self.width as int);
                    vstd::set_lib::lemma_len_subset(grown, board_cells(self@.height, self@.width));
                }
                self.flagged.push((x, y));
                self.flags = self.flags + 1;
                proof {
                    assert forall|a: int, b: int|
                        0 <= a < b < self.flagged@.len() implies self.flagged@[a]
                        != self.flagged@[b] by {
                        if b == self.flagged@.len() - 1 {
                            assert(old(self).flagged@.contains(self.flagged@[a]));
                        }
                    }
                    assert forall|k: int| 0 <= k < self.flagged@.len() implies #[trigger] in_bounds(
                        self.flagged@[k],
                        self.height as int,
                        self.width as int,
                    ) by {
                        if k < old(self).flagged@.len() {
                            assert(in_bounds(old(self).flagged@[k], self.height as int, self.width as int));
                        }
                    }
                    old(self).flagged@.lemma_push_to_set_commute((x, y));
                    self.flagged@.unique_seq_to_set();
                }
            },
        }
    }

    /// Whether the game is won: the flags cover the mines exactly, or
    /// every cell that holds no mine has been revealed.
    pub fn check_win(&self) -> (r: bool)
        requires
            self.wf(),
        ensures
            r == self@.won(),
    {
        proof {
            self.lemma_wf_view();
            lemma_board_cells_len(self@.height, self@.width);
        }
        if self.flagged.len() == self.mine_loc.len() {
            let mut eq = true;
            let mut i: usize = 0;
            while i < self.flagged.len()
                invariant
                    i <= self.flagged.len(),
                    eq == (forall|j: int| 0 <= j < i ==> self.mine_loc@.contains(#[trigger] self.flagged@[j])),
                decreases self.flagged.len() - i,
            {
                if !contains_cell(&self.mine_loc, self.flagged[i]) {
                    eq = false;
                }
                i = i + 1;
            }
            if eq {
                proof {
                    assert forall|c: (i32, i32)| self@.flagged.contains(c) implies self@.mines.contains(c) by {
                        let k = choose|k: int| 0 <= k < self.flagged@.len() && self.flagged@[k] == c;
                        assert(self.mine_loc@.contains(self.flagged@[k]));
                    }
                    vstd::set_lib::lemma_subset_equality(self@.flagged, self@.mines);
                }
                return true;
            } else {
                proof {
                    let k = choose|k: int| 0 <= k < self.flagged@.len() && !self.mine_loc@.contains(self.flagged@[k]);
                    assert(self@.flagged.contains(self.flagged@[k]));
                }
            }
        } else {
            assert(self@.flagged.len() != self@.mines.len());
        }
        let ghost union = self@.revealed + self@.mines;
        proof {
            self.seen@.unique_seq_to_set();
            self.mine_loc@.unique_seq_to_set();
            vstd::set_lib::lemma_set_disjoint_lens(self@.revealed, self@.mines);
            vstd::set_lib::lemma_len_subset(union, board_cells(self@.height, self@.width));
        }
        let total: usize = self.seen.len() + self.mine_loc.len();
        let area: usize = (self.height as usize) * (self.width as usize);
        proof {
            assert(area == self@.height * self@.width);
            if total == area {
                vstd::set_lib::lemma_subset_equality(union, board_cells(self@.height, self@.width));
            }
        }
        total == area
    }

    /// Whether `(x, y)` holds a mine; a point off the `i32` range holds none.
    fn has_mine_at(&self, x: i64, y: i64) -> (r: bool)
        ensures
            r == self@.mine_at(x as int, y as int),
    {
        if i32::MIN as i64 <= x && x <= i32::MAX as i64 && i32::MIN as i64 <= y && y
            <= i32::MAX as i64 {
            contains_cell(&self.mine_loc, (x as i32, y as i32))
        } else {
            false
        }
    }

    /// The number of mines among the eight cells around `(x, y)`. Any
    /// coordinates are accepted; points off the board hold no mine.
    pub fn get_surr_mines(&mut self, x: i32, y: i32) -> (r: i32)
        ensures
            *final(self) == *old(self),
            r == old(self)@.adjacent_mines(x as int, y as int),
            0 <= r <= 8,
    {
        self.surrounding_mines(x, y)
    }

    fn surrounding_mines(&self, x: i32, y: i32) -> (r: i32)
        ensures
            r == self@.adjacent_mines(x as int, y as int),
            0 <= r <= 8,
    {
        let x = x as i64;
        let y = y as i64;
        let mut count: i32 = 0;
        if self.has_mine_at(x - 1, y - 1) {
            count += 1;
        }
        if self.has_mine_at(x - 1, y) {
            count += 1;
        }
        if self.has_mine_at(x - 1, y + 1) {
            count += 1;
        }
        if self.has_mine_at(x, y - 1) {
            count += 1;
        }
        if self.has_mine_at(x, y + 1) {
            count += 1;
        }
        if self.has_mine_at(x + 1, y - 1) {
            count += 1;
        }
        if self.has_mine_at(x + 1, y) {
            count += 1;
        }
        if self.has_mine_at(x + 1, y + 1) {
            count += 1;
        }
        count
    }

    /// What the display shows at `(x, y)`: a flag first, then a mine, then
    /// a revealed cell with its count of adjacent mines, else a hidden cell.
    pub fn cell_state(&self, x: i32, y: i32) -> (r: CellState)
        ensures
            r == (if self@.flagged.contains((x, y)) {
                CellState::Flagged
            } else if self@.mines.contains((x, y)) {
                CellState::Mine
            } else if self@.revealed.contains((x, y)) {
                CellState::Revealed(self@.adjacent_mines(x as int, y as int) as u8)
            } else {
                CellState::Hidden
            }),
    {
        if contains_cell(&self.flagged, (x, y)) {
            CellState::Flagged
        } else if contains_cell(&self.mine_loc, (x, y)) {
            CellState::Mine
        } else if contains_cell(&self.seen, (x, y)) {
            let n = self.surrounding_mines(x, y);
            CellState::Revealed(n as u8)
        } else {
            CellState::Hidden
        }
    }

    /// The number of rows.
    pub fn get_height(&mut self) -> (r: i32)
        ensures
            *final(self) == *old(self),
            r == old(self)@.height,
    {
        self.height
    }

    /// The number of columns.
    pub fn get_width(&mut self) -> (r: i32)
        ensures
            *final(self) == *old(self),
            r == old(self)@.width,
    {
        self.width
    }

    /// The number of flags on the board.
    pub fn get_flags(&mut self) -> (r: i32)
        ensures
            *final(self) == *old(self),
            r == old(self)@.flag_count,
    {
        self.flags
    }

    /// The number of mines on the board.
    pub fn get_mines(&mut self) -> (r: i32)
        ensures
            *final(self) == *old(self),
            r == old(self)@.mine_count,
    {
        self.mines
    }

    /// What every well-formed grid satisfies, stated over its view.
    pub proof fn lemma_wf_view(&self)
        requires
            self.wf(),
        ensures
            self@.height > 0,
            self@.width > 0,
            self@.height * self@.width <= i32::MAX,
            self@.mines.finite(),
            self@.mines.len() == self@.mine_count,
            0 < self@.mine_count < self@.height * self@.width,
            self@.mines.subset_of(board_cells(self@.height, self@.width)),
            self@.revealed.finite(),
            self@.revealed.subset_of(board_cells(self@.height, self@.width)),
            self@.revealed.disjoint(self@.mines),
            self@.flagged.finite(),
            self@.flagged.len() == self@.flag_count,
            self@.flagged.subset_of(board_cells(self@.height, self@.width)),
    {
        self.mine_loc@.unique_seq_to_set();
        self.seen@.unique_seq_to_set();
        self.flagged@.unique_seq_to_set();
        assert forall|c: (i32, i32)| self@.mines.contains(c) implies board_cells(
            self@.height,
            self@.width,
        ).contains(c) by {
            let i = choose|i: int| 0 <= i < self.mine_loc@.len() && self.mine_loc@[i] == c;
            assert(in_bounds(self.mine_loc@[i], self.height as int, self.width as int));
        }
        assert forall|c: (i32, i32)| self@.revealed.contains(c) implies board_cells(
            self@.height,
            self@.width,
        ).contains(c) by {
            let i = choose|i: int| 0 <= i < self.seen@.len() && self.seen@[i] == c;
            assert(in_bounds(self.seen@[i], self.height as int, self.width as int));
        }
        assert forall|c: (i32, i32)| self@.flagged.contains(c) implies board_cells(
            self@.height,
            self@.width,
        ).contains(c) by {
            let i = choose|i: int| 0 <= i < self.flagged@.len() && self.flagged@[i] == c;
            assert(in_bounds(self.flagged@[i], self.height as int, self.width as int));
        }
    }
}

/// Whether `v` holds the cell `c`.
fn contains_cell(v: &Vec<(i32, i32)>, c: (i32, i32)) -> (r: bool)
    ensures
        r == v@.contains(c),
{
    let mut i: usize = 0;
    while i < v.len()
        invariant
            i <= v.len(),
            forall|j: int| 0 <= j < i ==> v@[j] != c,
        decreases v.len() - i,
    {
        if v[i].0 == c.0 && v[i].1 == c.1 {
            assert(v@[i as int] == c);
            return true;
        }
        i = i + 1;
    }
    false
}

/// Where `c` stands in `v`, if it does.
fn position_of(v: &Vec<(i32, i32)>, c: (i32, i32)) -> (r: Option<usize>)
    ensures
        r matches Some(i) ==> i < v.len() && v@[i as int] == c,
        r is None <==> !v@.contains(c),
{
    let mut i: usize = 0;
    while i < v.len()
        invariant
            i <= v.len(),
            forall|j: int| 0 <= j < i ==> v@[j] != c,
        decreases v.len() - i,
    {
        if v[i].0 == c.0 && v[i].1 == c.1 {
            assert(v@[i as int] == c);
            return Some(i);
        }
        i = i + 1;
    }
    None
}

/// Removing the entry at `i` from a sequence without duplicates removes
/// exactly that element from its set.
proof fn lemma_remove_no_dup(s: Seq<(i32, i32)>, i: int)
    requires
        s.no_duplicates(),
        0 <= i < s.len(),
    ensures
        s.remove(i).no_duplicates(),
        s.remove(i).to_set() == s.to_set().remove(s[i]),
        forall|c: (i32, i32)| s.remove(i).contains(c) ==> s.contains(c),
{
    let r = s.remove(i);
    assert forall|a: int, b: int| 0 <= a < b < r.len() implies r[a] != r[b] by {
        let a2 = if a < i { a } else { a + 1 };
        let b2 = if b < i { b } else { b + 1 };
        assert(r[a] == s[a2] && r[b] == s[b2]);
    }
    assert forall|c: (i32, i32)| r.contains(c) implies s.contains(c) && c != s[i] by {
        let k = choose|k: int| 0 <= k < r.len() && r[k] == c;
        let k2 = if k < i { k } else { k + 1 };
        assert(s[k2] == c);
    }
    assert forall|c: (i32, i32)| s.contains(c) && c != s[i] implies r.contains(c) by {
        let k = choose|k: int| 0 <= k < s.len() && s[k] == c;
        let k2 = if k < i { k } else { k - 1 };
        assert(r[k2] == c);
    }
    assert(r.to_set() =~= s.to_set().remove(s[i]));
}

/// Relies on rand::thread_rng and rand::Rng::gen_range: a value drawn from
/// `0..n`; gen_range panics on an empty range, hence `n > 0`.
#[verifier::external_body]
fn random_below(n: usize) -> (r: usize)
    requires
        n > 0,
    ensures
        r < n,
{
    rand::thread_rng().gen_range(0..n)
}

/// `a` comes strictly before `b` when the board is read row by row.
spec fn before(a: (i32, i32), b: (i32, i32)) -> bool {
    a.1 < b.1 || (a.1 == b.1 && a.0 < b.0)
}

/// Every cell of the board, row by row.
fn all_cells(height: i32, width: i32) -> (v: Vec<(i32, i32)>)
    requires
        0 < height,
        0 < width,
        height * width <= i32::MAX,
    ensures
        v@.no_duplicates(),
        cells_in_bounds(v@, height as int, width as int),
        v.len() == height * width,
{
    let mut v: Vec<(i32, i32)> = Vec::new();
    let mut y: i32 = 0;
    while y < height
        invariant
            0 <= y <= height,
            0 < width,
            height * width <= i32::MAX,
            v.len() == y * width,
            forall|a: int, b: int| 0 <= a < b < v.len() ==> before(v@[a], v@[b]),
            forall|j: int| 0 <= j < v.len() ==> v@[j].1 <= y,
            cells_in_bounds(v@, height as int, width as int),
        decreases height - y,
    {
        let mut x: i32 = 0;
        while x < width
            invariant
                0 <= x <= width,
                0 <= y < height,
                height * width <= i32::MAX,
                v.len() == y * width + x,
                forall|a: int, b: int| 0 <= a < b < v.len() ==> before(v@[a], v@[b]),
                forall|j: int| 0 <= j < v.len() ==> #[trigger] v@[j].1 < y + 1 || (v@[j].1 == y + 1 && v@[j].0 < x + 1),
                cells_in_bounds(v@, height as int, width as int),
            decreases width - x,
        {
            v.push((x + 1, y + 1));
            proof {
                assert(in_bounds(v@[v.len() - 1], height as int, width as int));
            }
            x = x + 1;
        }
        proof {
            assert((y + 1) * width == y * width + width) by (nonlinear_arith);
        }
        y = y + 1;
    }
    proof {
        assert forall|a: int, b: int| 0 <= a < v.len() && 0 <= b < v.len() && a != b implies v@[a]
            != v@[b] by {
            if a < b {
                assert(before(v@[a], v@[b]));
            } else {
                assert(before(v@[b], v@[a]));
            }
        }
    }
    v
}

/// `num_mine` distinct cells of the board, drawn at random.
///
/// Each mine goes to a cell drawn uniformly from those still free: the
/// same layouts, with the same odds, as drawing cells from the whole board
/// and throwing back the ones already mined, without the unbounded retries.
fn gen_mines(height: i32, width: i32, num_mine: usize) -> (mine_loc: Vec<(i32, i32)>)
    requires
        0 < height,
        0 < width,
        height * width <= i32::MAX,
        num_mine < height * width,
    ensures
        mine_loc@.no_duplicates(),
        cells_in_bounds(mine_loc@, height as int, width as int),
        mine_loc.len() == num_mine,
{
    let mut free = all_cells(height, width);
    let mut mine_loc: Vec<(i32, i32)> = Vec::new();
    while mine_loc.len() < num_mine
        invariant
            num_mine < height * width,
            mine_loc.len() <= num_mine,
            free.len() + mine_loc.len() == height * width,
            free@.no_duplicates(),
            mine_loc@.no_duplicates(),
            cells_in_bounds(free@, height as int, width as int),
            cells_in_bounds(mine_loc@, height as int, width as int),
            forall|c: (i32, i32)| free@.contains(c) ==> !mine_loc@.contains(c),
        decreases num_mine - mine_loc.len(),
    {
        let k = random_below(free.len());
        let ghost prev_free = free@;
        let ghost prev_mines = mine_loc@;
        take_free_cell(&mut free, &mut mine_loc, k);
        proof {
            assert(in_bounds(prev_free[k as int], height as int, width as int));
            assert forall|i: int| 0 <= i < free@.len() implies #[trigger] in_bounds(
                free@[i],
                height as int,
                width as int,
            ) by {
                let i2 = if i < k { i } else { i + 1 };
                assert(free@[i] == prev_free[i2]);
                assert(in_bounds(prev_free[i2], height as int, width as int));
            }
            assert forall|i: int| 0 <= i < mine_loc@.len() implies #[trigger] in_bounds(
                mine_loc@[i],
                height as int,
                width as int,
            ) by {
                if i < prev_mines.len() {
                    assert(in_bounds(prev_mines[i], height as int, width as int));
                }
            }
        }
    }
    mine_loc
}

/// Moves the free cell at position `k` of `free` into `mines`.
fn take_free_cell(free: &mut Vec<(i32, i32)>, mines: &mut Vec<(i32, i32)>, k: usize)
    requires
        k < old(free).len(),
        old(free)@.no_duplicates(),
        old(mines)@.no_duplicates(),
        forall|c: (i32, i32)| old(free)@.contains(c) ==> !old(mines)@.contains(c),
    ensures
        final(free)@ == old(free)@.remove(k as int),
        final(mines)@ == old(mines)@.push(old(free)@[k as int]),
        final(free)@.no_duplicates(),
        final(mines)@.no_duplicates(),
        forall|c: (i32, i32)| final(free)@.contains(c) ==> !final(mines)@.contains(c),
{
    proof {
        lemma_remove_no_dup(free@, k as int);
    }
    let c = free.remove(k);
    mines.push(c);
    proof {
        assert forall|a: int, b: int| 0 <= a < b < mines@.len() implies mines@[a] != mines@[b] by {
            if b == mines@.len() - 1 {
                assert(old(mines)@.contains(mines@[a]));
            }
        }
        assert forall|d: (i32, i32)| free@.contains(d) implies !mines@.contains(d) by {
            if mines@.contains(d) {
                let j = choose|j: int| 0 <= j < mines@.len() && mines@[j] == d;
                if j < old(mines)@.len() {
                    assert(old(mines)@.contains(d));
                }
            }
        }
    }
}

/// Flagging a cell twice gives back the state before, flagged set and
/// flag count included.
pub proof fn lemma_flag_twice(g: Grid, c: (i32, i32))
    requires
        g.wf(),
    ensures
        g@.after_flag(c).after_flag(c) == g@,
{
    g.lemma_wf_view();
    assert(toggled(toggled(g@.flagged, c), c) =~= g@.flagged);
}

/// Revealing a cell a second time changes nothing more.
pub proof fn lemma_reveal_twice(g: Grid, c: (i32, i32))
    ensures
        g@.after_reveal(c).after_reveal(c) == g@.after_reveal(c),
{
    assert(g@.revealed.insert(c).insert(c) =~= g@.revealed.insert(c));
}

/// A point two or more steps off the board has no mine around it.
pub proof fn lemma_far_off_board_no_adjacent(g: Grid, x: int, y: int)
    requires
        g.wf(),
        x < 0 || x > g@.width + 1 || y < 0 || y > g@.height + 1,
    ensures
        g@.adjacent_mines(x, y) == 0,
{
    g.lemma_wf_view();
    assert forall|px: int, py: int| #[trigger] g@.mine_at(px, py) implies 1 <= px <= g@.width
        && 1 <= py <= g@.height by {
        assert(board_cells(g@.height, g@.width).contains((px as i32, py as i32)));
    }
}

/// Flags that cover the mines exactly win, whatever has been revealed.
pub proof fn lemma_exact_flags_win(g: Grid)
    requires
        g.wf(),
        g@.flagged == g@.mines,
    ensures
        g@.won(),
{
}

/// Revealing every cell without a mine wins, whatever has been flagged.
pub proof fn lemma_all_safe_revealed_wins(g: Grid)
    requires
        g.wf(),
        forall|c: (i32, i32)|
            in_bounds(c, g@.height, g@.width) && !g@.mines.contains(c) ==> g@.revealed.contains(c),
    ensures
        g@.won(),
{
    g.lemma_wf_view();
    assert(g@.revealed + g@.mines =~= board_cells(g@.height, g@.width));
}

/// While some cell without a mine is still hidden and the flags do not
/// match the mines, the game is not won.
pub proof fn lemma_hidden_safe_cell_not_won(g: Grid, c: (i32, i32))
    requires
        g.wf(),
        in_bounds(c, g@.height, g@.width),
        !g@.mines.contains(c),
        !g@.revealed.contains(c),
        g@.flagged != g@.mines,
    ensures
        !g@.won(),
{
    assert(board_cells(g@.height, g@.width).contains(c));
    assert(!(g@.revealed + g@.mines).contains(c));
}

} // verus!
