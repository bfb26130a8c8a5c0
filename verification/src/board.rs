//! The toroidal board: a dense grid of optional occupants with gravity-based
//! insertion, wrap-around line scanning, win detection, and recovery of the
//! full set of cells that take part in a win.
use vstd::arithmetic::div_mod::{
    lemma_fundamental_div_mod, lemma_fundamental_div_mod_converse_mod, lemma_mod_add_multiples_vanish,
    lemma_mod_bound, lemma_mod_equivalence, lemma_mod_multiples_basic, lemma_mod_multiples_vanish,
    lemma_mod_self_0, lemma_small_mod,
};
use vstd::prelude::*;

use crate::Player;

verus! {

/// Mathematical (always non-negative) remainder of `n` by `m`, computed on
/// machine integers. Rust's `%` truncates toward zero, so a second step folds
/// negative remainders back into `[0, m)`.
pub fn modulo(n: i32, m: i32) -> (r: i32)
    requires
        1 <= m,
        // the fold-back step adds `m` to a remainder in `(-m, m)`
        2 * m <= i32::MAX,
    ensures
        r == n as int % m as int,
        0 <= r < m,
{
    proof {
        lemma_mod_facts(n as int, m as int);
    }
    let t = n % m;
    let u = t + m;
    proof {
        if t >= 0 {
            lemma_mod_add_multiples_vanish(t as int, m as int);
            lemma_small_mod(t as nat, m as nat);
        } else {
            if u == m {
                lemma_mod_self_0(m as int);
            } else {
                lemma_small_mod(u as nat, m as nat);
            }
        }
    }
    u % m
}

/// How the truncating remainder of a negative dividend relates to the
/// mathematical one: they differ by exactly `m` unless both are zero.
proof fn lemma_mod_facts(n: int, m: int)
    requires
        1 <= m,
    ensures
        0 <= n % m < m,
        n < 0 ==> {
            let k = (-n) % m;
            n % m == if k == 0 { 0int } else { m - k }
        },
{
    if n < 0 {
        let k = (-n) % m;
        let q = (-n) / m;
        lemma_fundamental_div_mod(-n, m);
        if k == 0 {
            assert((-q) * m + 0 == -(q * m + 0)) by (nonlinear_arith);
            lemma_fundamental_div_mod_converse_mod(n, m, -q, 0);
        } else {
            assert((-q - 1) * m + (m - k) == -(q * m + k)) by (nonlinear_arith);
            lemma_fundamental_div_mod_converse_mod(n, m, -q - 1, m - k);
        }
    } else {
        lemma_fundamental_div_mod(n, m);
    }
}

/// Failure of an insertion: the chosen column holds no empty cell.
#[derive(Debug, Clone)]
pub struct InsertError;

/// The playing grid. `board[column][row]` holds the occupant of a cell, with
/// row 0 at the bottom of a column; `None` marks an empty cell.
#[derive(Clone, Debug)]
pub struct Board {
    pub board: Vec<Vec<Option<Player>>>,
    pub width: u8,
    pub height: u8,
}

impl Board {
    /// Structural well-formedness: positive dimensions matching the grid.
    pub open spec fn wf(self) -> bool {
        &&& 1 <= self.width
        &&& 1 <= self.height
        &&& self.board@.len() == self.width as int
        &&& forall|c: int|
            0 <= c < self.width as int ==> (#[trigger] self.board@[c])@.len() == self.height as int
    }

    /// The occupant of the cell at column `x`, row `y`.
    pub open spec fn cell(self, x: int, y: int) -> Option<Player> {
        self.board@[x]@[y]
    }

    /// Gravity: within every column the occupied cells form a contiguous run
    /// that starts at row 0. Insertion is the sole mutator and always fills
    /// the lowest empty cell, so this holds of every reachable board.
    pub open spec fn gravity(self) -> bool {
        forall|c: int, r: int|
            0 <= c < self.width as int && 1 <= r < self.height as int && (#[trigger] self.cell(
                c,
                r,
            )) is Some ==> self.cell(c, r - 1) is Some
    }

    /// How many cells of column `c` among the lowest `upto` are occupied.
    pub open spec fn occupied_below(self, c: int, upto: int) -> int
        decreases upto,
    {
        if upto <= 0 {
            0
        } else {
            self.occupied_below(c, upto - 1) + if self.cell(c, upto - 1) is Some {
                1int
            } else {
                0int
            }
        }
    }

    /// The number of occupied cells in column `c`.
    pub open spec fn occupied_in_column(self, c: int) -> int {
        self.occupied_below(c, self.height as int)
    }

    /// Whether every cell of column `c` is occupied.
    pub open spec fn column_is_full(self, c: int) -> bool {
        forall|y: int| 0 <= y < self.height as int ==> #[trigger] self.cell(c, y) is Some
    }

    /// The column reached from `col` after `amount` steps of `dx`, wrapped.
    pub open spec fn shift_col(self, col: int, dx: int, amount: int) -> int {
        (col + amount * dx) % (self.width as int)
    }

    /// The row reached from `row` after `amount` steps of `dy`, wrapped.
    pub open spec fn shift_row(self, row: int, dy: int, amount: int) -> int {
        (row + amount * dy) % (self.height as int)
    }

    /// Whether the cell `amount` steps from `(col, row)` along `(dx, dy)`,
    /// wrapping around the edges, is occupied by `player`.
    pub open spec fn at_offset_is(
        self,
        col: int,
        row: int,
        dx: int,
        dy: int,
        amount: int,
        player: Player,
    ) -> bool {
        self.cell(self.shift_col(col, dx, amount), self.shift_row(row, dy, amount)) == Some(player)
    }

    /// A gapless run of `len` chips of `player` along `(dx, dy)`, starting
    /// `s0` steps from `(col, row)`.
    pub open spec fn run_at(
        self,
        col: int,
        row: int,
        dx: int,
        dy: int,
        player: Player,
        s0: int,
        len: int,
    ) -> bool {
        forall|t: int| s0 <= t < s0 + len ==> self.at_offset_is(col, row, dx, dy, t, player)
    }

    /// A run of `win_length` chips of `player` along `(dx, dy)` lies within
    /// the scan window of `2 * win_length` cells centred on `(col, row)`.
    pub open spec fn line_wins(
        self,
        col: int,
        row: int,
        dx: int,
        dy: int,
        player: Player,
        win_length: int,
    ) -> bool {
        &&& 1 <= win_length
        &&& exists|s0: int|
            -win_length <= s0 <= 0 && self.run_at(col, row, dx, dy, player, s0, win_length)
    }

    /// The drop at `(col, row)` completes a win for `player` along one of the
    /// four scanned line families: diagonal, horizontal, anti-diagonal,
    /// vertical. The other four directions are redundant by symmetry.
    pub open spec fn wins(self, col: int, row: int, player: Player, win_length: int) -> bool {
        ||| self.line_wins(col, row, 1, 1, player, win_length)
        ||| self.line_wins(col, row, 1, 0, player, win_length)
        ||| self.line_wins(col, row, 1, -1, player, win_length)
        ||| self.line_wins(col, row, 0, -1, player, win_length)
    }

    /// The cell `s` steps from `(col, row)` is joined to the drop cell by a
    /// gapless chain of `player`-occupied cells: for a forward offset every
    /// cell from 0 out to `s` holds `player`, for a backward offset every
    /// cell from -1 back to `s` does.
    pub open spec fn connected(
        self,
        col: int,
        row: int,
        dx: int,
        dy: int,
        player: Player,
        s: int,
    ) -> bool {
        if s >= 0 {
            forall|t: int| 0 <= t <= s ==> self.at_offset_is(col, row, dx, dy, t, player)
        } else {
            forall|t: int| s <= t <= -1 ==> self.at_offset_is(col, row, dx, dy, t, player)
        }
    }

    /// Every cell on the line through `(col, row)` along `(dx, dy)` that is
    /// reachable from the drop cell through consecutive `player` chips.
    pub open spec fn chips_in_dir(
        self,
        col: int,
        row: int,
        dx: int,
        dy: int,
        player: Player,
    ) -> Set<(int, int)> {
        Set::new(
            |c: (int, int)|
                exists|s: int|
                    #[trigger] self.connected(col, row, dx, dy, player, s) && c.0 == self.shift_col(
                        col,
                        dx,
                        s,
                    ) && c.1 == self.shift_row(row, dy, s),
        )
    }

    /// The chips the direction `(dx, dy)` contributes to the winning set: the
    /// whole connected chain when it reaches `win_length` cells, else nothing.
    pub open spec fn dir_winning_chips(
        self,
        col: int,
        row: int,
        dx: int,
        dy: int,
        player: Player,
        win_length: int,
    ) -> Set<(int, int)> {
        let cd = self.chips_in_dir(col, row, dx, dy, player);
        if cd.finite() && cd.len() >= win_length {
            cd
        } else {
            Set::empty()
        }
    }

    /// Every cell that takes part in a qualifying line through the drop at
    /// `(col, row)`: the union of the contributions of the four directions.
    pub open spec fn winning_chips(
        self,
        col: int,
        row: int,
        player: Player,
        win_length: int,
    ) -> Set<(int, int)> {
        self.dir_winning_chips(col, row, 1, 1, player, win_length) + self.dir_winning_chips(
            col,
            row,
            1,
            0,
            player,
            win_length,
        ) + self.dir_winning_chips(col, row, 1, -1, player, win_length) + self.dir_winning_chips(
            col,
            row,
            0,
            -1,
            player,
            win_length,
        )
    }

    /// `p` steps along `(dx, dy)` bring every coordinate back to itself.
    pub open spec fn is_period(self, dx: int, dy: int, p: int) -> bool {
        &&& 1 <= p
        &&& (p * dx) % (self.width as int) == 0
        &&& (p * dy) % (self.height as int) == 0
    }

    /// The cells reached from `(col, row)` by an offset strictly between
    /// `lo` and `hi`.
    spec fn range_chips(
        self,
        col: int,
        row: int,
        dx: int,
        dy: int,
        lo: int,
        hi: int,
    ) -> Set<(int, int)> {
        Set::new(
            |c: (int, int)|
                exists|t: int|
                    lo < t < hi && c.0 == #[trigger] self.shift_col(col, dx, t) && c.1
                        == self.shift_row(row, dy, t),
        )
    }

    /// An entirely empty grid of the given dimensions.
    pub fn new(width: u8, height: u8) -> (r: Board)
        requires
            1 <= width,
            1 <= height,
        ensures
            r.wf(),
            r.gravity(),
            r.width == width,
            r.height == height,
            forall|c: int, y: int|
                0 <= c < width as int && 0 <= y < height as int ==> #[trigger] r.cell(c, y) is None,
    {
        let mut empty_col: Vec<Option<Player>> = Vec::new();
        let mut i: u8 = 0;
        while i < height
            invariant
                i <= height,
                empty_col@.len() == i as int,
                forall|y: int| 0 <= y < i as int ==> #[trigger] empty_col@[y] is None,
            decreases height as int - i as int,
        {
            empty_col.push(None);
            i = i + 1;
        }
        let mut board: Vec<Vec<Option<Player>>> = Vec::new();
        let mut c: u8 = 0;
        while c < width
            invariant
                c <= width,
                board@.len() == c as int,
                empty_col@.len() == height as int,
                forall|y: int| 0 <= y < height as int ==> #[trigger] empty_col@[y] is None,
                forall|j: int| 0 <= j < c as int ==> (#[trigger] board@[j])@ == empty_col@,
            decreases width as int - c as int,
        {
            board.push(empty_col.clone());
            c = c + 1;
        }
        Board { board, width, height }
    }

    /// Drops a piece of `player` into `column`: the lowest empty cell becomes
    /// occupied and its row is returned; a full column is left unchanged and
    /// reported as `InsertError`. Under gravity the returned row equals the
    /// number of cells already occupied in the column.
    pub fn insert(&mut self, column: usize, player: &Player) -> (r: Result<usize, InsertError>)
        requires
            old(self).wf(),
            column < old(self).width as usize,
        ensures
            final(self).wf(),
            final(self).width == old(self).width,
            final(self).height == old(self).height,
            match r {
                Ok(row) => {
                    &&& 0 <= row < old(self).height as usize
                    &&& old(self).cell(column as int, row as int) is None
                    &&& forall|y: int|
                        0 <= y < row as int ==> #[trigger] old(self).cell(column as int, y) is Some
                    &&& forall|c: int, y: int|
                        0 <= c < old(self).width as int && 0 <= y < old(self).height as int
                            ==> #[trigger] final(self).cell(c, y) == if c == column as int && y
                            == row as int {
                            Some(*player)
                        } else {
                            old(self).cell(c, y)
                        }
                    &&& old(self).gravity() ==> row as int == old(self).occupied_in_column(
                        column as int,
                    )
                },
                Err(_) => {
                    &&& *final(self) == *old(self)
                    &&& old(self).column_is_full(column as int)
                },
            },
            r is Err <==> old(self).column_is_full(column as int),
            old(self).gravity() ==> final(self).gravity(),
    {
        let ghost pre = *self;
        let mut row: u8 = 0;
        #[verifier::loop_isolation(false)]
        while row < self.height
            invariant
                *self == pre,
                pre.wf(),
                column < pre.width as usize,
                row <= pre.height,
                forall|y: int| 0 <= y < row as int ==> #[trigger] pre.cell(column as int, y) is Some,
            decreases pre.height as int - row as int,
        {
            if self.board[column][row as usize].is_none() {
                self.board[column][row as usize] = Some(*player);
                proof {
                    if pre.gravity() {
                        lemma_occupied_prefix(pre, column as int, row as int, pre.height as int);
                        assert forall|c: int, r: int|
                            0 <= c < self.width as int && 1 <= r < self.height as int
                                && (#[trigger] self.cell(c, r)) is Some implies self.cell(
                            c,
                            r - 1,
                        ) is Some by {
                            if c != column as int || r != row as int {
                                assert(pre.cell(c, r) is Some);
                            }
                        }
                    }
                }
                return Ok(row as usize);
            }
            row = row + 1;
        }
        Err(InsertError)
    }

    /// Whether the topmost cell of column `colnr` is occupied: under gravity
    /// that is exactly when the column holds no empty cell.
    #[allow(dead_code)]
    fn column_full(&self, colnr: usize) -> (r: bool)
        requires
            self.wf(),
            colnr < self.width as usize,
        ensures
            r == self.cell(colnr as int, self.height as int - 1) is Some,
            self.gravity() ==> r == self.column_is_full(colnr as int),
    {
        let top = self.height as usize - 1;
        let r = self.board[colnr][top].is_some();
        proof {
            if self.gravity() && r {
                assert forall|y: int| 0 <= y < self.height as int implies #[trigger] self.cell(
                    colnr as int,
                    y,
                ) is Some by {
                    lemma_gravity_down(*self, colnr as int, y, self.height as int - 1);
                }
            }
        }
        r
    }

    /// Shifts `pos` by `amount` steps along `dir`, wrapping both coordinates
    /// with the mathematical remainder, so a negative intermediate value lands
    /// back inside the grid instead of producing a negative index.
    pub fn shift_coords(&self, pos: (usize, usize), dir: (i32, i32), amount: i32) -> (r: (
        usize,
        usize,
    ))
        requires
            self.wf(),
            pos.0 < self.width as usize,
            pos.1 < self.height as usize,
            -1 <= dir.0 <= 1,
            -1 <= dir.1 <= 1,
            // the step arithmetic runs in `i32` and the dimensions are at most 255
            -0x7fff_ff00 <= amount <= 0x7fff_ff00,
        ensures
            r.0 as int == self.shift_col(pos.0 as int, dir.0 as int, amount as int),
            r.1 as int == self.shift_row(pos.1 as int, dir.1 as int, amount as int),
            r.0 < self.width as usize,
            r.1 < self.height as usize,
    {
        let (col, row) = pos;
        let (dx, dy) = dir;
        proof {
            assert(-0x7fff_ff00 <= amount as int * dx as int <= 0x7fff_ff00) by (nonlinear_arith)
                requires
                    -1 <= dx as int <= 1,
                    -0x7fff_ff00 <= amount as int <= 0x7fff_ff00,
            ;
            assert(-0x7fff_ff00 <= amount as int * dy as int <= 0x7fff_ff00) by (nonlinear_arith)
                requires
                    -1 <= dy as int <= 1,
                    -0x7fff_ff00 <= amount as int <= 0x7fff_ff00,
            ;
        }
        let pre_x = modulo(col as i32 + amount * dx, self.width as i32);
        let pre_y = modulo(row as i32 + amount * dy, self.height as i32);
        (pre_x as usize, pre_y as usize)
    }

    /// Scans the window of `2 * win_length` cells centred on `(col, row)`
    /// along `(dx, dy)` and reports whether it holds a gapless run of
    /// `win_length` chips of `player`. On a board narrower or shorter than
    /// the run sought, a line that closes on itself is counted as often as
    /// the window revisits it, so filling such a wrapped line registers as a
    /// win; that is accepted behaviour.
    fn check_line(
        &self,
        col: usize,
        row: usize,
        dx: i32,
        dy: i32,
        player: &Player,
        win_length: usize,
    ) -> (r: bool)
        requires
            self.wf(),
            col < self.width as usize,
            row < self.height as usize,
            -1 <= dx <= 1,
            -1 <= dy <= 1,
            win_length <= 0x7fff_fe00,
        ensures
            r == self.line_wins(col as int, row as int, dx as int, dy as int, *player,
            win_length as int),
    {
        let len = win_length as i32;
        let mut consecutive: usize = 0;
        let mut s: i32 = -len;
        #[verifier::loop_isolation(false)]
        while s < len
            invariant
                -len <= s <= len,
                consecutive as int <= s + len,
                forall|t: int|
                    s - consecutive <= t < s ==> self.at_offset_is(
                        col as int,
                        row as int,
                        dx as int,
                        dy as int,
                        t,
                        *player,
                    ),
                s - consecutive == -len || !self.at_offset_is(
                    col as int,
                    row as int,
                    dx as int,
                    dy as int,
                    s - consecutive - 1,
                    *player,
                ),
                win_length >= 1 ==> forall|s0: int|
                    -len <= s0 && s0 + len <= s ==> !(#[trigger] self.run_at(
                        col as int,
                        row as int,
                        dx as int,
                        dy as int,
                        *player,
                        s0,
                        win_length as int,
                    )),
            decreases len - s,
        {
            let (x, y) = self.shift_coords((col, row), (dx, dy), s);
            let hit = match self.board[x][y] {
                Some(p) => p == *player,
                None => false,
            };
            if hit {
                consecutive = consecutive + 1;
                if consecutive >= win_length {
                    proof {
                        let s0 = s + 1 - win_length as int;
                        assert(self.run_at(
                            col as int,
                            row as int,
                            dx as int,
                            dy as int,
                            *player,
                            s0,
                            win_length as int,
                        ));
                    }
                    return true;
                }
            } else {
                consecutive = 0;
            }
            proof {
                let s0 = s + 1 - win_length as int;
                if -len <= s0 && self.run_at(
                    col as int,
                    row as int,
                    dx as int,
                    dy as int,
                    *player,
                    s0,
                    win_length as int,
                ) {
                    assert(self.at_offset_is(
                        col as int,
                        row as int,
                        dx as int,
                        dy as int,
                        s - consecutive,
                        *player,
                    ));
                }
            }
            s = s + 1;
        }
        false
    }

    /// Whether the drop at `(col, row)` completes a win for `player`: some
    /// direction among diagonal, horizontal, anti-diagonal and vertical holds
    /// a gapless run of `win_length` chips through the scan window.
    pub fn check_win(&self, col: usize, row: usize, player: &Player, win_length: usize) -> (r:
        bool)
        requires
            self.wf(),
            col < self.width as usize,
            row < self.height as usize,
            win_length <= 0x7fff_fe00,
        ensures
            r == self.wins(col as int, row as int, *player, win_length as int),
    {
        if self.check_line(col, row, 1, 1, player, win_length) {
            return true;
        }
        if self.check_line(col, row, 1, 0, player, win_length) {
            return true;
        }
        if self.check_line(col, row, 1, -1, player, win_length) {
            return true;
        }
        if self.check_line(col, row, 0, -1, player, win_length) {
            return true;
        }
        false
    }

    /// Collects every chip of `player` on the line through `(col, row)` along
    /// `direction` that is joined to the drop cell by a gapless chain. The
    /// forward walk keeps the list of cells it has seen and stops on a
    /// revisit, so a line that closes on itself cannot loop forever; the
    /// backward walk needs no such guard, because the forward walk has already
    /// found a break in the chain.
    fn find_adjacent_chips_in_dir(
        &self,
        col: usize,
        row: usize,
        direction: (i32, i32),
        player: &Player,
    ) -> (r: Vec<(usize, usize)>)
        requires
            self.wf(),
            col < self.width as usize,
            row < self.height as usize,
            -1 <= direction.0 <= 1,
            -1 <= direction.1 <= 1,
        ensures
            r@.no_duplicates(),
            chips_set(r@) == self.chips_in_dir(
                col as int,
                row as int,
                direction.0 as int,
                direction.1 as int,
                *player,
            ),
    {
        let (dx, dy) = direction;
        let ghost w = self.width as int;
        let ghost h = self.height as int;
        let ghost gc = col as int;
        let ghost gr = row as int;
        let ghost gdx = dx as int;
        let ghost gdy = dy as int;
        proof {
            assert(1 <= w * h <= 0xfe01) by (nonlinear_arith)
                requires
                    1 <= w <= 255,
                    1 <= h <= 255,
            ;
        }
        let mut found: Vec<(usize, usize)> = Vec::new();
        let mut s: i32 = 0;
        // forward walk
        loop
            invariant
                self.wf(),
                col < self.width as usize,
                row < self.height as usize,
                -1 <= dx <= 1,
                -1 <= dy <= 1,
                w == self.width as int,
                h == self.height as int,
                gc == col as int,
                gr == row as int,
                gdx == dx as int,
                gdy == dy as int,
                dx == direction.0,
                dy == direction.1,
                1 <= w * h <= 0xfe01,
                0 <= s <= w * h,
                found@.len() == s as int,
                forall|i: int|
                    0 <= i < s as int ==> (#[trigger] found@[i]).0 as int == self.shift_col(
                        gc,
                        gdx,
                        i,
                    ) && found@[i].1 as int == self.shift_row(gr, gdy, i),
                forall|t: int|
                    0 <= t < s as int ==> #[trigger] self.at_offset_is(gc, gr, gdx, gdy, t, *player),
                found@.no_duplicates(),
            ensures
                0 <= s <= w * h,
                found@.len() == s as int,
                forall|i: int|
                    0 <= i < s as int ==> (#[trigger] found@[i]).0 as int == self.shift_col(
                        gc,
                        gdx,
                        i,
                    ) && found@[i].1 as int == self.shift_row(gr, gdy, i),
                forall|t: int|
                    0 <= t < s as int ==> #[trigger] self.at_offset_is(gc, gr, gdx, gdy, t, *player),
                found@.no_duplicates(),
                !self.at_offset_is(gc, gr, gdx, gdy, s as int, *player),
            decreases w * h - s,
        {
            let (x, y) = self.shift_coords((col, row), (dx, dy), s);
            if contains_chip(&found, x, y) {
                proof {
                    self.lemma_revisit_closes_loop(found@, gc, gr, gdx, gdy, *player, s as int, x, y);
                }
                return found;
            }
            let hit = match self.board[x][y] {
                Some(p) => p == *player,
                None => false,
            };
            if hit {
                let ghost prev = found@;
                found.push((x, y));
                proof {
                    lemma_chips_set_push(prev, x, y);
                    if s as int == w * h {
                        assert forall|i: int| 0 <= i < found@.len() implies ((
                        #[trigger] found@[i]).0 as int) < w && ((found@[i].1 as int)) < h by {
                            if i < s as int {
                                lemma_mod_bound(gc + i * gdx, w);
                                lemma_mod_bound(gr + i * gdy, h);
                            }
                        }
                        lemma_distinct_chips_bounded(found@, w, h);
                        assert(false);
                    }
                }
                s = s + 1;
            } else {
                break;
            }
        }
        // the forward walk stopped on a broken chain at offset `s`: some cell
        // on the line is not the player's, so the backward walk must reach
        // such a cell within one period of the line
        let ghost f = s as int;
        proof {
            lemma_period_exists(*self, gc, gr, gdx, gdy);
        }
        let ghost p = choose|p: int| #[trigger] self.is_period(gdx, gdy, p) && p <= w * h;
        let ghost k0 = p - f % p;
        proof {
            lemma_mod_bound(f, p);
            lemma_fundamental_div_mod(f, p);
            lemma_mod_multiples_basic(-(f / p) - 1, p);
            assert(-k0 - f == (-(f / p) - 1) * p) by (nonlinear_arith)
                requires
                    k0 == p - f % p,
                    f == p * (f / p) + f % p,
                    1 <= p,
            ;
            assert((-k0 - f) % p == 0);
            lemma_shift_congruent(*self, gc, gr, gdx, gdy, p, -k0, f);
            assert(!self.at_offset_is(gc, gr, gdx, gdy, -k0, *player));
            assert(chips_set(found@) =~= self.range_chips(gc, gr, gdx, gdy, -1, f)) by {
                assert forall|c: (int, int)| chips_set(found@).contains(c) implies self.range_chips(
                    gc,
                    gr,
                    gdx,
                    gdy,
                    -1,
                    f,
                ).contains(c) by {
                    let i = choose|i: int|
                        0 <= i < found@.len() && (#[trigger] found@[i]).0 == c.0 && found@[i].1
                            == c.1;
                    assert(c.0 == self.shift_col(gc, gdx, i) && c.1 == self.shift_row(gr, gdy, i));
                }
                assert forall|c: (int, int)| self.range_chips(gc, gr, gdx, gdy, -1, f).contains(c)
                    implies chips_set(found@).contains(c) by {
                    let u = choose|u: int|
                        -1 < u < f && c.0 == #[trigger] self.shift_col(gc, gdx, u) && c.1
                            == self.shift_row(gr, gdy, u);
                    assert((found@[u]).0 == c.0 && found@[u].1 == c.1);
                }
            }
        }
        let mut t: i32 = -1;
        // backward walk
        loop
            invariant
                self.wf(),
                col < self.width as usize,
                row < self.height as usize,
                -1 <= dx <= 1,
                -1 <= dy <= 1,
                w == self.width as int,
                h == self.height as int,
                gc == col as int,
                gr == row as int,
                gdx == dx as int,
                gdy == dy as int,
                dx == direction.0,
                dy == direction.1,
                1 <= w * h <= 0xfe01,
                0 <= f,
                self.is_period(gdx, gdy, p),
                p <= w * h,
                1 <= k0 <= p,
                !self.at_offset_is(gc, gr, gdx, gdy, -k0, *player),
                -k0 <= t <= -1,
                forall|u: int|
                    (t as int) < u <= -1 ==> #[trigger] self.at_offset_is(gc, gr, gdx, gdy, u, *player),
                chips_set(found@) == self.range_chips(gc, gr, gdx, gdy, t as int, f),
                found@.no_duplicates(),
            ensures
                -k0 <= t <= -1,
                forall|u: int|
                    (t as int) < u <= -1 ==> #[trigger] self.at_offset_is(gc, gr, gdx, gdy, u, *player),
                !self.at_offset_is(gc, gr, gdx, gdy, t as int, *player),
                chips_set(found@) == self.range_chips(gc, gr, gdx, gdy, t as int, f),
                found@.no_duplicates(),
            decreases k0 + t,
        {
            let (x, y) = self.shift_coords((col, row), (dx, dy), t);
            let hit = match self.board[x][y] {
                Some(p) => p == *player,
                None => false,
            };
            if !hit {
                break;
            }
            let ghost prev = found@;
            let ghost target: (int, int) = (x as int, y as int);
            if !contains_chip(&found, x, y) {
                found.push((x, y));
                proof {
                    lemma_chips_set_push(prev, x, y);
                }
            }
            proof {
                assert(chips_set(found@) =~= chips_set(prev).insert(target));
                assert(self.range_chips(gc, gr, gdx, gdy, t as int - 1, f) =~= self.range_chips(
                    gc,
                    gr,
                    gdx,
                    gdy,
                    t as int,
                    f,
                ).insert(target)) by {
                    assert forall|c: (int, int)| self.range_chips(
                        gc,
                        gr,
                        gdx,
                        gdy,
                        t as int - 1,
                        f,
                    ).contains(c) implies self.range_chips(gc, gr, gdx, gdy, t as int, f).insert(
                        target,
                    ).contains(c) by {
                        let u = choose|u: int|
                            (t as int - 1) < u < f && c.0 == #[trigger] self.shift_col(gc, gdx, u)
                                && c.1 == self.shift_row(gr, gdy, u);
                        if u != t as int {
                            assert(self.range_chips(gc, gr, gdx, gdy, t as int, f).contains(c));
                        }
                    }
                    assert forall|c: (int, int)| self.range_chips(gc, gr, gdx, gdy, t as int, f).insert(
                        target,
                    ).contains(c) implies self.range_chips(gc, gr, gdx, gdy, t as int - 1, f).contains(
                        c,
                    ) by {
                        if c == target {
                            assert(c.0 == self.shift_col(gc, gdx, t as int) && c.1
                                == self.shift_row(gr, gdy, t as int));
                        } else {
                            let u = choose|u: int|
                                (t as int) < u < f && c.0 == #[trigger] self.shift_col(gc, gdx, u)
                                    && c.1 == self.shift_row(gr, gdy, u);
                            assert(c.0 == self.shift_col(gc, gdx, u) && c.1 == self.shift_row(
                                gr,
                                gdy,
                                u,
                            ));
                        }
                    }
                }
            }
            t = t - 1;
        }
        proof {
            self.lemma_open_chain_chips(gc, gr, gdx, gdy, *player, t as int, f);
        }
        found
    }

    /// When the forward walk revisits a cell, the whole line is a closed loop
    /// of the player's chips: the walk started at the drop cell, so the first
    /// revisited cell is the drop cell itself, the walked stretch is a period
    /// of the line, and the collected cells are exactly the connected chips.
    proof fn lemma_revisit_closes_loop(
        &self,
        found: Seq<(usize, usize)>,
        gc: int,
        gr: int,
        gdx: int,
        gdy: int,
        player: Player,
        s: int,
        x: usize,
        y: usize,
    )
        requires
            self.wf(),
            0 <= gc < self.width as int,
            0 <= gr < self.height as int,
            0 <= s,
            found.len() == s,
            forall|i: int|
                0 <= i < s ==> (#[trigger] found[i]).0 as int == self.shift_col(gc, gdx, i)
                    && found[i].1 as int == self.shift_row(gr, gdy, i),
            forall|t: int| 0 <= t < s ==> #[trigger] self.at_offset_is(gc, gr, gdx, gdy, t, player),
            found.no_duplicates(),
            chips_set(found).contains((x as int, y as int)),
            x as int == self.shift_col(gc, gdx, s),
            y as int == self.shift_row(gr, gdy, s),
        ensures
            chips_set(found) == self.chips_in_dir(gc, gr, gdx, gdy, player),
    {
        let w = self.width as int;
        let h = self.height as int;
        let i = choose|i: int|
            0 <= i < found.len() && (#[trigger] found[i]).0 == x as int && found[i].1 == y as int;
        assert(self.shift_col(gc, gdx, i) == self.shift_col(gc, gdx, s) && self.shift_row(
            gr,
            gdy,
            i,
        ) == self.shift_row(gr, gdy, s));
        lemma_mod_equivalence(gc + s * gdx, gc + i * gdx, w);
        lemma_mod_equivalence(gr + s * gdy, gr + i * gdy, h);
        assert((gc + s * gdx) - (gc + i * gdx) == (s - i) * gdx && (gr + s * gdy) - (gr + i * gdy)
            == (s - i) * gdy) by (nonlinear_arith);
        assert(self.is_period(gdx, gdy, s - i));
        if i != 0 {
            lemma_mod_self_0(s - i);
            lemma_shift_congruent(*self, gc, gr, gdx, gdy, s - i, s - i, 0);
            assert(found[s - i] == found[0]) by {
                assert((found[s - i]).0 as int == self.shift_col(gc, gdx, 0) && (found[s - i]).1
                    as int == self.shift_row(gr, gdy, 0));
            }
            assert(false);
        }
        let p = s;
        assert forall|a: int| #[trigger] self.at_offset_is(gc, gr, gdx, gdy, a, player) by {
            let r = a % p;
            lemma_mod_bound(a, p);
            lemma_fundamental_div_mod(a, p);
            lemma_mod_multiples_basic(a / p, p);
            assert(a - r == (a / p) * p) by (nonlinear_arith)
                requires
                    a == p * (a / p) + r,
            ;
            assert((a - r) % p == 0);
            lemma_shift_congruent(*self, gc, gr, gdx, gdy, p, a, r);
            assert(self.at_offset_is(gc, gr, gdx, gdy, r, player));
        }
        assert(chips_set(found) =~= self.chips_in_dir(gc, gr, gdx, gdy, player)) by {
            assert forall|c: (int, int)| chips_set(found).contains(c) implies self.chips_in_dir(
                gc,
                gr,
                gdx,
                gdy,
                player,
            ).contains(c) by {
                let j = choose|j: int|
                    0 <= j < found.len() && (#[trigger] found[j]).0 == c.0 && found[j].1 == c.1;
                assert(self.connected(gc, gr, gdx, gdy, player, j));
                assert(c.0 == self.shift_col(gc, gdx, j) && c.1 == self.shift_row(gr, gdy, j));
            }
            assert forall|c: (int, int)| self.chips_in_dir(gc, gr, gdx, gdy, player).contains(c)
                implies chips_set(found).contains(c) by {
                let a = choose|a: int|
                    #[trigger] self.connected(gc, gr, gdx, gdy, player, a) && c.0 == self.shift_col(
                        gc,
                        gdx,
                        a,
                    ) && c.1 == self.shift_row(gr, gdy, a);
                let r = a % p;
                lemma_mod_bound(a, p);
                lemma_fundamental_div_mod(a, p);
                lemma_mod_multiples_basic(a / p, p);
                assert(a - r == (a / p) * p) by (nonlinear_arith)
                    requires
                        a == p * (a / p) + r,
                ;
                assert((a - r) % p == 0);
                lemma_shift_congruent(*self, gc, gr, gdx, gdy, p, a, r);
                assert((found[r]).0 == c.0 && found[r].1 == c.1);
            }
        }
    }

    /// When the chain is broken on both sides, the connected chips are exactly
    /// the cells strictly between the two break offsets.
    proof fn lemma_open_chain_chips(
        &self,
        gc: int,
        gr: int,
        gdx: int,
        gdy: int,
        player: Player,
        lo: int,
        hi: int,
    )
        requires
            lo <= -1,
            hi >= 0,
            forall|u: int| lo < u <= -1 ==> #[trigger] self.at_offset_is(gc, gr, gdx, gdy, u, player),
            forall|u: int| 0 <= u < hi ==> #[trigger] self.at_offset_is(gc, gr, gdx, gdy, u, player),
            !self.at_offset_is(gc, gr, gdx, gdy, lo, player),
            !self.at_offset_is(gc, gr, gdx, gdy, hi, player),
        ensures
            self.chips_in_dir(gc, gr, gdx, gdy, player) == self.range_chips(gc, gr, gdx, gdy, lo, hi),
    {
        assert forall|a: int| #[trigger] self.connected(gc, gr, gdx, gdy, player, a) <==> lo < a
            < hi by {
            if lo < a < hi {
                assert(self.connected(gc, gr, gdx, gdy, player, a));
            }
            if self.connected(gc, gr, gdx, gdy, player, a) {
                if a >= hi {
                    assert(self.at_offset_is(gc, gr, gdx, gdy, hi, player));
                }
                if a <= lo {
                    assert(self.at_offset_is(gc, gr, gdx, gdy, lo, player));
                }
            }
        }
        assert(self.chips_in_dir(gc, gr, gdx, gdy, player) =~= self.range_chips(
            gc,
            gr,
            gdx,
            gdy,
            lo,
            hi,
        )) by {
            assert forall|c: (int, int)| self.chips_in_dir(gc, gr, gdx, gdy, player).contains(c)
                implies self.range_chips(gc, gr, gdx, gdy, lo, hi).contains(c) by {
                let a = choose|a: int|
                    #[trigger] self.connected(gc, gr, gdx, gdy, player, a) && c.0 == self.shift_col(
                        gc,
                        gdx,
                        a,
                    ) && c.1 == self.shift_row(gr, gdy, a);
                assert(lo < a < hi);
                assert(c.0 == self.shift_col(gc, gdx, a) && c.1 == self.shift_row(gr, gdy, a));
            }
            assert forall|c: (int, int)| self.range_chips(gc, gr, gdx, gdy, lo, hi).contains(c)
                implies self.chips_in_dir(gc, gr, gdx, gdy, player).contains(c) by {
                let u = choose|u: int|
                    lo < u < hi && c.0 == #[trigger] self.shift_col(gc, gdx, u) && c.1
                        == self.shift_row(gr, gdy, u);
                assert(self.connected(gc, gr, gdx, gdy, player, u));
            }
        }
    }

    /// Every cell of every direction whose connected chain through the drop
    /// at `(col, row)` reaches `win_length` chips: the full highlight set of
    /// a win, not just the cells nearest the last move. Meaningful after
    /// `check_win` has confirmed a win for the same arguments; on other
    /// inputs it simply collects what qualifies, which may be nothing.
    pub fn find_winning_chips(
        &self,
        col: usize,
        row: usize,
        player: &Player,
        win_length: usize,
    ) -> (r: Vec<(usize, usize)>)
        requires
            self.wf(),
            col < self.width as usize,
            row < self.height as usize,
        ensures
            r@.no_duplicates(),
            chips_set(r@) == self.winning_chips(col as int, row as int, *player, win_length as int),
    {
        let mut found: Vec<(usize, usize)> = Vec::new();
        self.add_winning_dir(&mut found, col, row, (1, 1), player, win_length);
        self.add_winning_dir(&mut found, col, row, (1, 0), player, win_length);
        self.add_winning_dir(&mut found, col, row, (1, -1), player, win_length);
        self.add_winning_dir(&mut found, col, row, (0, -1), player, win_length);
        proof {
            assert(chips_set(found@) =~= self.winning_chips(
                col as int,
                row as int,
                *player,
                win_length as int,
            ));
        }
        found
    }

    /// Adds to `found` the chips that `direction` contributes to the winning
    /// set: the whole connected chain through the drop cell when it reaches
    /// `win_length` cells.
    fn add_winning_dir(
        &self,
        found: &mut Vec<(usize, usize)>,
        col: usize,
        row: usize,
        direction: (i32, i32),
        player: &Player,
        win_length: usize,
    )
        requires
            self.wf(),
            col < self.width as usize,
            row < self.height as usize,
            -1 <= direction.0 <= 1,
            -1 <= direction.1 <= 1,
            old(found)@.no_duplicates(),
        ensures
            final(found)@.no_duplicates(),
            chips_set(final(found)@) == chips_set(old(found)@) + self.dir_winning_chips(
                col as int,
                row as int,
                direction.0 as int,
                direction.1 as int,
                *player,
                win_length as int,
            ),
    {
        let ghost pre = found@;
        let ghost cd = self.chips_in_dir(
            col as int,
            row as int,
            direction.0 as int,
            direction.1 as int,
            *player,
        );
        let adj = self.find_adjacent_chips_in_dir(col, row, direction, player);
        proof {
            lemma_chips_view(adj@);
            assert(cd.finite() && cd.len() == adj@.len());
        }
        if adj.len() >= win_length {
            let mut i: usize = 0;
            #[verifier::loop_isolation(false)]
            while i < adj.len()
                invariant
                    i <= adj.len(),
                    found@.no_duplicates(),
                    chips_set(found@) == chips_set(pre) + chips_set(adj@.take(i as int)),
                decreases adj.len() - i,
            {
                let (x, y) = adj[i];
                let ghost prev = found@;
                let ghost target: (int, int) = (x as int, y as int);
                if !contains_chip(found, x, y) {
                    found.push((x, y));
                    proof {
                        lemma_chips_set_push(prev, x, y);
                    }
                }
                proof {
                    assert(chips_set(found@) =~= chips_set(prev).insert(target));
                    lemma_chips_set_take_step(adj@, i as int);
                    assert(adj@[i as int] == (x, y));
                    assert(chips_set(found@) =~= chips_set(pre) + chips_set(
                        adj@.take(i as int + 1),
                    ));
                }
                i = i + 1;
            }
            proof {
                assert(adj@.take(adj@.len() as int) =~= adj@);
                assert(chips_set(adj@) == cd);
            }
        } else {
            proof {
                assert(chips_set(found@) =~= chips_set(pre) + Set::<(int, int)>::empty());
            }
        }
    }
}

/// Win detection is direction-symmetric: a gapless run of `win_length` chips
/// of one player along any of the four scanned directions is detected as a
/// win no matter where the run starts within the scan window.
pub proof fn lemma_win_direction_symmetric(
    b: Board,
    col: int,
    row: int,
    dx: int,
    dy: int,
    player: Player,
    win_length: int,
    s0: int,
)
    requires
        (dx == 1 && dy == 1) || (dx == 1 && dy == 0) || (dx == 1 && dy == -1) || (dx == 0 && dy
            == -1),
        1 <= win_length,
        -win_length <= s0 <= 0,
        b.run_at(col, row, dx, dy, player, s0, win_length),
        b.cell(col, row) == Some(player),
    ensures
        b.wins(col, row, player, win_length),
{
    assert(b.line_wins(col, row, dx, dy, player, win_length));
}

/// The set of coordinates a chip list stands for.
pub open spec fn chips_set(s: Seq<(usize, usize)>) -> Set<(int, int)> {
    Set::new(
        |c: (int, int)|
            exists|i: int| 0 <= i < s.len() && (#[trigger] s[i]).0 == c.0 && s[i].1 == c.1,
    )
}

/// A duplicate-free chip list stands for a finite set of exactly its length:
/// chips map to their coordinates injectively.
proof fn lemma_chips_view(v: Seq<(usize, usize)>)
    requires
        v.no_duplicates(),
    ensures
        chips_set(v).finite(),
        chips_set(v).len() == v.len(),
{
    let f = |q: (usize, usize)| (q.0 as int, q.1 as int);
    let m = v.map_values(f);
    assert(vstd::relations::injective(f)) by {
        assert forall|a: (usize, usize), b: (usize, usize)| #[trigger] f(a) == #[trigger] f(b)
            implies a == b by {
            assert(a.0 == b.0 && a.1 == b.1);
        }
    }
    v.lemma_no_duplicates_injective(f);
    m.unique_seq_to_set();
    vstd::seq_lib::seq_to_set_is_finite::<(int, int)>(m);
    assert(chips_set(v) =~= m.to_set()) by {
        assert forall|c: (int, int)| chips_set(v).contains(c) implies m.to_set().contains(c) by {
            let i = choose|i: int|
                0 <= i < v.len() && (#[trigger] v[i]).0 == c.0 && v[i].1 == c.1;
            assert(m[i] == c);
            assert(m.contains(c));
        }
        assert forall|c: (int, int)| m.to_set().contains(c) implies chips_set(v).contains(c) by {
            let i = m.index_of(c);
            assert((v[i]).0 == c.0 && v[i].1 == c.1);
        }
    }
}

/// Appending a chip adds its coordinates to the set a list stands for, and
/// keeps the list duplicate-free when the coordinates are new.
proof fn lemma_chips_set_push(v: Seq<(usize, usize)>, x: usize, y: usize)
    ensures
        chips_set(v.push((x, y))) == chips_set(v).insert((x as int, y as int)),
        v.no_duplicates() && !chips_set(v).contains((x as int, y as int)) ==> v.push(
            (x, y),
        ).no_duplicates(),
{
    let v2 = v.push((x, y));
    let ghost target: (int, int) = (x as int, y as int);
    assert(chips_set(v2) =~= chips_set(v).insert(target)) by {
        assert forall|c: (int, int)| chips_set(v2).contains(c) implies chips_set(v).insert(
            target,
        ).contains(c) by {
            let i = choose|i: int|
                0 <= i < v2.len() && (#[trigger] v2[i]).0 == c.0 && v2[i].1 == c.1;
            if i < v.len() {
                assert((v[i]).0 == c.0 && v[i].1 == c.1);
            } else {
                assert(c == target);
            }
        }
        assert forall|c: (int, int)| chips_set(v).insert(target).contains(c) implies chips_set(
            v2,
        ).contains(c) by {
            if c == target {
                assert((v2[v.len() as int]).0 == c.0 && v2[v.len() as int].1 == c.1);
            } else {
                let i = choose|i: int|
                    0 <= i < v.len() && (#[trigger] v[i]).0 == c.0 && v[i].1 == c.1;
                assert((v2[i]).0 == c.0 && v2[i].1 == c.1);
            }
        }
    }
    if v.no_duplicates() && !chips_set(v).contains(target) {
        assert forall|i: int, j: int| 0 <= i < j < v2.len() implies (#[trigger] v2[i]) != (
        #[trigger] v2[j]) by {
            if j == v2.len() - 1 {
                if v2[i] == v2[j] {
                    assert((v[i]).0 == target.0 && v[i].1 == target.1);
                    assert(chips_set(v).contains(target));
                }
            } else {
                assert(v[i] != v[j]);
            }
        }
    }
}

/// Taking one more chip from a list adds that chip's coordinates to the set
/// the prefix stands for.
proof fn lemma_chips_set_take_step(s: Seq<(usize, usize)>, i: int)
    requires
        0 <= i < s.len(),
    ensures
        chips_set(s.take(i + 1)) == chips_set(s.take(i)).insert((s[i].0 as int, s[i].1 as int)),
{
    assert(s.take(i + 1) =~= s.take(i).push((s[i].0, s[i].1)));
    lemma_chips_set_push(s.take(i), s[i].0, s[i].1);
}

/// Coordinate pairs below `(w, h)` encode injectively into `[0, w * h)`.
proof fn lemma_enc_injective(x1: int, y1: int, x2: int, y2: int, h: int)
    requires
        1 <= h,
        0 <= y1 < h,
        0 <= y2 < h,
        0 <= x1,
        0 <= x2,
        x1 * h + y1 == x2 * h + y2,
    ensures
        x1 == x2 && y1 == y2,
{
    lemma_fundamental_div_mod_converse_mod(x1 * h + y1, h, x1, y1);
    lemma_fundamental_div_mod_converse_mod(x2 * h + y2, h, x2, y2);
    assert(y1 == y2);
    assert(x1 * h == x2 * h);
    assert(x1 == x2) by (nonlinear_arith)
        requires
            1 <= h,
            x1 * h == x2 * h,
    ;
}

/// Pigeonhole for grid coordinates: a duplicate-free list of chips drawn from
/// a `w` by `h` grid has at most `w * h` entries.
proof fn lemma_distinct_chips_bounded(v: Seq<(usize, usize)>, w: int, h: int)
    requires
        1 <= w,
        1 <= h,
        forall|i: int|
            0 <= i < v.len() ==> ((#[trigger] v[i]).0 as int) < w && ((v[i].1 as int)) < h,
        v.no_duplicates(),
    ensures
        v.len() <= w * h,
{
    let enc = |q: (usize, usize)| (q.0 as int) * h + (q.1 as int);
    let e = v.map_values(enc);
    assert forall|i: int, j: int| #![trigger v[i], v[j]] 0 <= i < j < e.len() implies e[i]
        != e[j] by {
        assert(e[i] == enc(v[i]) && e[j] == enc(v[j]));
        if e[i] == e[j] {
            lemma_enc_injective(v[i].0 as int, v[i].1 as int, v[j].0 as int, v[j].1 as int, h);
            assert(v[i].0 == v[j].0 && v[i].1 == v[j].1);
            assert(v[i] == v[j]);
        }
    }
    assert(e.no_duplicates());
    e.unique_seq_to_set();
    vstd::seq_lib::seq_to_set_is_finite::<int>(e);
    assert(e.to_set().subset_of(vstd::set_lib::set_int_range(0, w * h))) by {
        assert forall|a: int| e.to_set().contains(a) implies vstd::set_lib::set_int_range(
            0,
            w * h,
        ).contains(a) by {
            let i = e.index_of(a);
            assert(e[i] == enc(v[i]));
            assert(0 <= (v[i].0 as int) * h + (v[i].1 as int) < w * h) by (nonlinear_arith)
                requires
                    1 <= h,
                    0 <= (v[i].0 as int) < w,
                    0 <= (v[i].1 as int) < h,
            ;
        }
    }
    vstd::set_lib::lemma_int_range(0, w * h);
    vstd::set_lib::lemma_len_subset(e.to_set(), vstd::set_lib::set_int_range(0, w * h));
}

/// Pigeonhole for coordinate pairs: a duplicate-free sequence of pairs drawn
/// from a `w` by `h` grid has at most `w * h` entries.
proof fn lemma_distinct_pairs_bounded(v: Seq<(int, int)>, w: int, h: int)
    requires
        1 <= w,
        1 <= h,
        forall|i: int| 0 <= i < v.len() ==> 0 <= (#[trigger] v[i]).0 < w && 0 <= v[i].1 < h,
        v.no_duplicates(),
    ensures
        v.len() <= w * h,
{
    let enc = |q: (int, int)| q.0 * h + q.1;
    let e = v.map_values(enc);
    assert forall|i: int, j: int| #![trigger v[i], v[j]] 0 <= i < j < e.len() implies e[i]
        != e[j] by {
        assert(e[i] == enc(v[i]) && e[j] == enc(v[j]));
        if e[i] == e[j] {
            lemma_enc_injective(v[i].0, v[i].1, v[j].0, v[j].1, h);
            assert(v[i] == v[j]);
        }
    }
    assert(e.no_duplicates());
    e.unique_seq_to_set();
    vstd::seq_lib::seq_to_set_is_finite::<int>(e);
    assert(e.to_set().subset_of(vstd::set_lib::set_int_range(0, w * h))) by {
        assert forall|a: int| e.to_set().contains(a) implies vstd::set_lib::set_int_range(
            0,
            w * h,
        ).contains(a) by {
            let i = e.index_of(a);
            assert(e[i] == enc(v[i]));
            assert(0 <= v[i].0 * h + v[i].1 < w * h) by (nonlinear_arith)
                requires
                    1 <= h,
                    0 <= v[i].0 < w,
                    0 <= v[i].1 < h,
            ;
        }
    }
    vstd::set_lib::lemma_int_range(0, w * h);
    vstd::set_lib::lemma_len_subset(e.to_set(), vstd::set_lib::set_int_range(0, w * h));
}

/// Walking far enough along any direction must revisit a coordinate, so the
/// line through any cell has a period of at most `width * height` steps.
proof fn lemma_period_exists(b: Board, col: int, row: int, dx: int, dy: int)
    requires
        b.wf(),
        0 <= col < b.width as int,
        0 <= row < b.height as int,
    ensures
        exists|p: int| #[trigger] b.is_period(dx, dy, p) && p <= b.width as int * b.height as int,
{
    let w = b.width as int;
    let h = b.height as int;
    let walk = Seq::new((w * h + 1) as nat, |t: int| (b.shift_col(col, dx, t), b.shift_row(row, dy, t)));
    assert(1 <= w * h) by (nonlinear_arith)
        requires
            1 <= w,
            1 <= h,
    ;
    assert forall|i: int| 0 <= i < walk.len() implies 0 <= (#[trigger] walk[i]).0 < w && 0 <= walk[i].1 < h by {
        lemma_mod_bound(col + i * dx, w);
        lemma_mod_bound(row + i * dy, h);
    }
    if walk.no_duplicates() {
        lemma_distinct_pairs_bounded(walk, w, h);
        assert(false);
    }
    let (i, j) = choose|i: int, j: int|
        0 <= i < j < walk.len() && #[trigger] walk[i] == #[trigger] walk[j];
    let p = j - i;
    lemma_mod_equivalence(col + j * dx, col + i * dx, w);
    lemma_mod_equivalence(row + j * dy, row + i * dy, h);
    assert((col + j * dx) - (col + i * dx) == p * dx && (row + j * dy) - (row + i * dy) == p * dy)
        by (nonlinear_arith)
        requires
            p == j - i,
    ;
    assert(b.is_period(dx, dy, p));
}

/// Offsets that agree modulo a period of the line land on the same cell.
proof fn lemma_shift_congruent(b: Board, col: int, row: int, dx: int, dy: int, p: int, a: int, t: int)
    requires
        b.wf(),
        b.is_period(dx, dy, p),
        (a - t) % p == 0,
    ensures
        b.shift_col(col, dx, a) == b.shift_col(col, dx, t),
        b.shift_row(row, dy, a) == b.shift_row(row, dy, t),
{
    let w = b.width as int;
    let h = b.height as int;
    let k = (a - t) / p;
    lemma_fundamental_div_mod(a - t, p);
    let qx = (p * dx) / w;
    lemma_fundamental_div_mod(p * dx, w);
    let qy = (p * dy) / h;
    lemma_fundamental_div_mod(p * dy, h);
    assert(col + a * dx == (k * qx) * w + (col + t * dx)) by (nonlinear_arith)
        requires
            a == t + p * k,
            p * dx == w * qx,
    ;
    assert(row + a * dy == (k * qy) * h + (row + t * dy)) by (nonlinear_arith)
        requires
            a == t + p * k,
            p * dy == h * qy,
    ;
    lemma_mod_multiples_vanish(k * qx, col + t * dx, w);
    lemma_mod_multiples_vanish(k * qy, row + t * dy, h);
}

/// A value strictly between `-m` and `m` that is divisible by `m` is zero.
proof fn lemma_mod_zero_small(d: int, m: int)
    requires
        1 <= m,
        -m < d < m,
        d % m == 0,
    ensures
        d == 0,
{
    if d > 0 {
        lemma_small_mod(d as nat, m as nat);
    }
    if d < 0 {
        lemma_mod_facts(d, m);
        lemma_small_mod((-d) as nat, m as nat);
    }
}

/// On a board whose dimensions both exceed the win length, a direction that
/// holds a qualifying run through the drop cell contributes its whole chain,
/// which covers the drop cell itself: the chain holds at least `win_length`
/// distinct cells, because such a board is too large for the run to overlap
/// itself.
proof fn lemma_dir_chips_cover(
    b: Board,
    col: int,
    row: int,
    dx: int,
    dy: int,
    player: Player,
    win_length: int,
    s0: int,
)
    requires
        b.wf(),
        0 <= col < b.width as int,
        0 <= row < b.height as int,
        dx == 1 || (dx == 0 && dy == -1),
        -1 <= dy <= 1,
        1 <= win_length,
        win_length < b.width as int,
        win_length < b.height as int,
        -win_length <= s0 <= 0,
        b.run_at(col, row, dx, dy, player, s0, win_length),
        b.cell(col, row) == Some(player),
    ensures
        b.chips_in_dir(col, row, dx, dy, player).finite(),
        b.chips_in_dir(col, row, dx, dy, player).len() >= win_length,
        b.chips_in_dir(col, row, dx, dy, player).contains((col, row)),
{
    let w = b.width as int;
    let h = b.height as int;
    let cd = b.chips_in_dir(col, row, dx, dy, player);
    // the drop cell is its own wrapped image and holds the player's chip
    lemma_small_mod(col as nat, w as nat);
    lemma_small_mod(row as nat, h as nat);
    assert(b.shift_col(col, dx, 0) == col && b.shift_row(row, dy, 0) == row);
    assert(b.at_offset_is(col, row, dx, dy, 0, player));
    assert(b.connected(col, row, dx, dy, player, 0));
    assert(cd.contains((col, row)));
    // every run cell is connected to the drop cell
    assert forall|t: int| s0 <= t < s0 + win_length implies #[trigger] b.connected(
        col,
        row,
        dx,
        dy,
        player,
        t,
    ) by {
        if t >= 0 {
            assert forall|u: int| 0 <= u <= t implies #[trigger] b.at_offset_is(
                col,
                row,
                dx,
                dy,
                u,
                player,
            ) by {}
        } else {
            assert forall|u: int| t <= u <= -1 implies #[trigger] b.at_offset_is(
                col,
                row,
                dx,
                dy,
                u,
                player,
            ) by {}
        }
    }
    // the run cells are pairwise distinct, because the board is too large for
    // a stretch of `win_length` steps to wrap onto itself
    let run_cells = Seq::new(
        win_length as nat,
        |k: int| (b.shift_col(col, dx, s0 + k), b.shift_row(row, dy, s0 + k)),
    );
    assert forall|k1: int, k2: int| 0 <= k1 < k2 < run_cells.len() implies (
    #[trigger] run_cells[k1]) != (#[trigger] run_cells[k2]) by {
        if run_cells[k1] == run_cells[k2] {
            let d = k2 - k1;
            if dx == 1 {
                lemma_mod_equivalence(col + (s0 + k2) * dx, col + (s0 + k1) * dx, w);
                assert((col + (s0 + k2) * dx) - (col + (s0 + k1) * dx) == d) by (nonlinear_arith)
                    requires
                        dx == 1,
                        d == k2 - k1,
                ;
                lemma_mod_zero_small(d, w);
            } else {
                lemma_mod_equivalence(row + (s0 + k2) * dy, row + (s0 + k1) * dy, h);
                assert((row + (s0 + k2) * dy) - (row + (s0 + k1) * dy) == -d) by (nonlinear_arith)
                    requires
                        dy == -1,
                        d == k2 - k1,
                ;
                lemma_mod_zero_small(-d, h);
            }
        }
    }
    run_cells.unique_seq_to_set();
    vstd::seq_lib::seq_to_set_is_finite::<(int, int)>(run_cells);
    assert(run_cells.to_set().subset_of(cd)) by {
        assert forall|c: (int, int)| run_cells.to_set().contains(c) implies cd.contains(c) by {
            let k = run_cells.index_of(c);
            assert(b.connected(col, row, dx, dy, player, s0 + k));
            assert(c.0 == b.shift_col(col, dx, s0 + k) && c.1 == b.shift_row(row, dy, s0 + k));
        }
    }
    // the whole chain is finite: it lies on one wrapped line of the board
    lemma_period_exists(b, col, row, dx, dy);
    let p = choose|p: int| #[trigger] b.is_period(dx, dy, p) && p <= w * h;
    let orbit = Seq::new(p as nat, |t: int| (b.shift_col(col, dx, t), b.shift_row(row, dy, t)));
    assert(cd.subset_of(orbit.to_set())) by {
        assert forall|c: (int, int)| cd.contains(c) implies orbit.to_set().contains(c) by {
            let a = choose|a: int|
                #[trigger] b.connected(col, row, dx, dy, player, a) && c.0 == b.shift_col(
                    col,
                    dx,
                    a,
                ) && c.1 == b.shift_row(row, dy, a);
            let r = a % p;
            lemma_mod_bound(a, p);
            lemma_fundamental_div_mod(a, p);
            lemma_mod_multiples_basic(a / p, p);
            assert(a - r == (a / p) * p) by (nonlinear_arith)
                requires
                    a == p * (a / p) + r,
            ;
            assert((a - r) % p == 0);
            lemma_shift_congruent(b, col, row, dx, dy, p, a, r);
            assert(orbit[r] == c);
            assert(orbit.contains(c));
        }
    }
    vstd::seq_lib::seq_to_set_is_finite::<(int, int)>(orbit);
    vstd::set_lib::lemma_set_subset_finite(orbit.to_set(), cd);
    vstd::set_lib::lemma_len_subset(run_cells.to_set(), cd);
}

/// The winning-chip set is always finite: each direction contributes either
/// its connected chain, which is only counted when finite, or nothing.
pub proof fn lemma_winning_chips_finite(
    b: Board,
    col: int,
    row: int,
    player: Player,
    win_length: int,
)
    ensures
        b.winning_chips(col, row, player, win_length).finite(),
{
    let d1 = b.dir_winning_chips(col, row, 1, 1, player, win_length);
    let d2 = b.dir_winning_chips(col, row, 1, 0, player, win_length);
    let d3 = b.dir_winning_chips(col, row, 1, -1, player, win_length);
    let d4 = b.dir_winning_chips(col, row, 0, -1, player, win_length);
    assert(d1.finite() && d2.finite() && d3.finite() && d4.finite()) by {
        assert(Set::<(int, int)>::empty().finite());
    }
    vstd::set_lib::lemma_set_union_finite_iff(d1, d2);
    vstd::set_lib::lemma_set_union_finite_iff(d1 + d2, d3);
    vstd::set_lib::lemma_set_union_finite_iff(d1 + d2 + d3, d4);
}

/// After a drop of the player's own chip that `check_win` confirms, on a
/// board whose width and height both exceed the win length, the winning-chip
/// set holds the dropped cell — so it is never empty — and holds at least
/// `win_length` cells. On a smaller board a confirmed win can come from a
/// line that wraps onto itself in fewer than `win_length` cells; no chain
/// then qualifies and the set may stay empty.
pub proof fn lemma_winning_chips_cover(
    b: Board,
    col: int,
    row: int,
    player: Player,
    win_length: int,
)
    requires
        b.wf(),
        0 <= col < b.width as int,
        0 <= row < b.height as int,
        win_length < b.width as int,
        win_length < b.height as int,
        b.cell(col, row) == Some(player),
        b.wins(col, row, player, win_length),
    ensures
        b.winning_chips(col, row, player, win_length).finite(),
        b.winning_chips(col, row, player, win_length).contains((col, row)),
        b.winning_chips(col, row, player, win_length).len() >= win_length,
{
    let whole = b.winning_chips(col, row, player, win_length);
    lemma_winning_chips_finite(b, col, row, player, win_length);
    if b.line_wins(col, row, 1, 1, player, win_length) {
        let s0 = choose|s0: int|
            -win_length <= s0 <= 0 && #[trigger] b.run_at(col, row, 1, 1, player, s0, win_length);
        lemma_dir_chips_cover(b, col, row, 1, 1, player, win_length, s0);
        let cd = b.chips_in_dir(col, row, 1, 1, player);
        assert(b.dir_winning_chips(col, row, 1, 1, player, win_length) == cd);
        assert(cd.subset_of(whole));
        vstd::set_lib::lemma_len_subset(cd, whole);
    } else if b.line_wins(col, row, 1, 0, player, win_length) {
        let s0 = choose|s0: int|
            -win_length <= s0 <= 0 && #[trigger] b.run_at(col, row, 1, 0, player, s0, win_length);
        lemma_dir_chips_cover(b, col, row, 1, 0, player, win_length, s0);
        let cd = b.chips_in_dir(col, row, 1, 0, player);
        assert(b.dir_winning_chips(col, row, 1, 0, player, win_length) == cd);
        assert(cd.subset_of(whole));
        vstd::set_lib::lemma_len_subset(cd, whole);
    } else if b.line_wins(col, row, 1, -1, player, win_length) {
        let s0 = choose|s0: int|
            -win_length <= s0 <= 0 && #[trigger] b.run_at(col, row, 1, -1, player, s0, win_length);
        lemma_dir_chips_cover(b, col, row, 1, -1, player, win_length, s0);
        let cd = b.chips_in_dir(col, row, 1, -1, player);
        assert(b.dir_winning_chips(col, row, 1, -1, player, win_length) == cd);
        assert(cd.subset_of(whole));
        vstd::set_lib::lemma_len_subset(cd, whole);
    } else {
        let s0 = choose|s0: int|
            -win_length <= s0 <= 0 && #[trigger] b.run_at(col, row, 0, -1, player, s0, win_length);
        lemma_dir_chips_cover(b, col, row, 0, -1, player, win_length, s0);
        let cd = b.chips_in_dir(col, row, 0, -1, player);
        assert(b.dir_winning_chips(col, row, 0, -1, player, win_length) == cd);
        assert(cd.subset_of(whole));
        vstd::set_lib::lemma_len_subset(cd, whole);
    }
}

/// Whether the chip list holds the cell `(x, y)`.
fn contains_chip(v: &Vec<(usize, usize)>, x: usize, y: usize) -> (r: bool)
    ensures
        r == chips_set(v@).contains((x as int, y as int)),
{
    let mut i: usize = 0;
    #[verifier::loop_isolation(false)]
    while i < v.len()
        invariant
            i <= v.len(),
            forall|j: int| 0 <= j < i as int ==> #[trigger] v@[j] != (x, y),
        decreases v@.len() - i as int,
    {
        let (cx, cy) = v[i];
        if cx == x && cy == y {
            proof {
                assert((v@[i as int]).0 == x as int && (v@[i as int]).1 == y as int);
            }
            return true;
        }
        i = i + 1;
    }
    proof {
        if chips_set(v@).contains((x as int, y as int)) {
            let j = choose|j: int|
                0 <= j < v@.len() && (#[trigger] v@[j]).0 == x as int && v@[j].1 == y as int;
            assert(v@[j] == (x, y));
        }
    }
    false
}

/// Under gravity, a column whose lowest `row` cells are occupied and whose
/// cell at `row` is empty has exactly `row` occupied cells among its lowest
/// `upto` whenever `row <= upto`: everything above the first gap is empty.
proof fn lemma_occupied_prefix(b: Board, c: int, row: int, upto: int)
    requires
        b.wf(),
        b.gravity(),
        0 <= c < b.width as int,
        0 <= row < b.height as int,
        b.cell(c, row) is None,
        forall|y: int| 0 <= y < row ==> #[trigger] b.cell(c, y) is Some,
        row <= upto <= b.height as int,
    ensures
        b.occupied_below(c, upto) == row,
    decreases upto,
{
    if upto == row {
        lemma_occupied_all(b, c, upto);
    } else {
        lemma_occupied_prefix(b, c, row, upto - 1);
        if b.cell(c, upto - 1) is Some {
            lemma_gravity_down(b, c, row, upto - 1);
        }
    }
}

/// Occupied cells at every row below `upto` make the count `upto` itself.
proof fn lemma_occupied_all(b: Board, c: int, upto: int)
    requires
        forall|y: int| 0 <= y < upto ==> #[trigger] b.cell(c, y) is Some,
        0 <= upto,
    ensures
        b.occupied_below(c, upto) == upto,
    decreases upto,
{
    if upto > 0 {
        lemma_occupied_all(b, c, upto - 1);
    }
}

/// Boards that agree cell for cell count occupied cells alike.
pub proof fn lemma_occupied_congruent(a: Board, b: Board, c: int, upto: int)
    requires
        forall|y: int| 0 <= y < upto ==> #[trigger] a.cell(c, y) == b.cell(c, y),
    ensures
        a.occupied_below(c, upto) == b.occupied_below(c, upto),
    decreases upto,
{
    if upto > 0 {
        lemma_occupied_congruent(a, b, c, upto - 1);
    }
}

/// Under gravity an occupied cell has occupied cells all the way down.
proof fn lemma_gravity_down(b: Board, c: int, low: int, high: int)
    requires
        b.wf(),
        b.gravity(),
        0 <= c < b.width as int,
        0 <= low <= high < b.height as int,
        b.cell(c, high) is Some,
    ensures
        b.cell(c, low) is Some,
    decreases high - low,
{
    if low < high {
        lemma_gravity_down(b, c, low + 1, high);
    }
}

} // verus!
