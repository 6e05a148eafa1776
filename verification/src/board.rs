//! The board: a square grid of cells, legal-move generation under the
//! eight-direction bracket rule, and the capture/flip rule that a placed
//! disc applies to every confirmed run of opponent discs.

use vstd::prelude::*;

verus! {

/// One of the two competing sides.
#[derive(Clone, Copy, Debug, PartialEq, Eq, Structural)]
pub enum Player {
    Black,
    White,
}

/// A zero-based (row, column) coordinate into the grid.
pub type Move = (usize, usize);

impl Player {
    /// The other side.
    pub open spec fn opponent_spec(self) -> Player {
        match self {
            Player::Black => Player::White,
            Player::White => Player::Black,
        }
    }

    pub fn opponent(self) -> (r: Player)
        ensures
            r == self.opponent_spec(),
    {
        match self {
            Player::Black => Player::White,
            Player::White => Player::Black,
        }
    }
}

/// The mathematical model of a board: a side length and a row-major grid of
/// cells, each empty or holding one side's disc.
#[verifier::ext_equal]
pub ghost struct BoardModel {
    pub size: int,
    pub cells: Seq<Seq<Option<Player>>>,
}

impl BoardModel {
    /// Well-formed: an even side length between 2 and 8, and a full square
    /// grid of that dimension.
    pub open spec fn wf(self) -> bool {
        &&& 2 <= self.size <= 8
        &&& self.size % 2 == 0
        &&& self.cells.len() == self.size
        &&& forall|r: int| 0 <= r < self.size ==> (#[trigger] self.cells[r]).len() == self.size
    }

    pub open spec fn in_bounds(self, r: int, c: int) -> bool {
        0 <= r < self.size && 0 <= c < self.size
    }

    pub open spec fn cell(self, r: int, c: int) -> Option<Player> {
        self.cells[r][c]
    }

    /// A unit compass direction: one of the eight neighbours of a cell.
    pub open spec fn is_dir(dx: int, dy: int) -> bool {
        -1 <= dx <= 1 && -1 <= dy <= 1 && !(dx == 0 && dy == 0)
    }

    /// Whether the `j`-th step from (r, c) along (dx, dy) is on the grid.
    pub open spec fn ray_in(self, r: int, c: int, dx: int, dy: int, j: int) -> bool {
        self.in_bounds(r + j * dx, c + j * dy)
    }

    /// The cell at the `j`-th step from (r, c) along (dx, dy).
    pub open spec fn ray(self, r: int, c: int, dx: int, dy: int, j: int) -> Option<Player> {
        self.cell(r + j * dx, c + j * dy)
    }

    /// The `j`-th step from (r, c) along (dx, dy) is on the grid and holds an
    /// opponent disc.
    pub open spec fn opp_at(
        self,
        player: Player,
        r: int,
        c: int,
        dx: int,
        dy: int,
        j: int,
    ) -> bool {
        self.ray_in(r, c, dx, dy, j) && self.ray(r, c, dx, dy, j) == Some(player.opponent_spec())
    }

    /// The bracket rule in one direction: steps 1 to n-1 from (r, c) hold
    /// opponent discs (at least one), and step n holds `player`'s own disc,
    /// all on the grid.
    pub open spec fn brackets(
        self,
        player: Player,
        r: int,
        c: int,
        dx: int,
        dy: int,
        n: int,
    ) -> bool {
        &&& 2 <= n
        &&& forall|j: int| 1 <= j < n ==> self.opp_at(player, r, c, dx, dy, j)
        &&& self.ray_in(r, c, dx, dy, n)
        &&& self.ray(r, c, dx, dy, n) == Some(player)
    }

    /// Some bracket exists in direction (dx, dy).
    pub open spec fn legal_in_dir(self, player: Player, r: int, c: int, dx: int, dy: int) -> bool {
        exists|n: int| self.brackets(player, r, c, dx, dy, n)
    }

    /// A legal move for `player`: an empty cell on the grid from which some
    /// direction brackets a run of opponent discs.
    pub open spec fn is_legal(self, player: Player, r: int, c: int) -> bool {
        &&& self.in_bounds(r, c)
        &&& self.cell(r, c) is None
        &&& exists|dx: int, dy: int|
            Self::is_dir(dx, dy) && #[trigger] self.legal_in_dir(player, r, c, dx, dy)
    }

    /// The disc `j` steps out along (dx, dy) from a move at (r, c) lies
    /// strictly inside a confirmed bracket, so it is flipped.
    pub open spec fn flip_step(
        self,
        player: Player,
        mr: int,
        mc: int,
        dx: int,
        dy: int,
        j: int,
    ) -> bool {
        1 <= j && exists|n: int| self.brackets(player, mr, mc, dx, dy, n) && j < n
    }

    /// Cell (r, c) is flipped by a move at (mr, mc) through direction (dx, dy).
    pub open spec fn flipped_in_dir(
        self,
        player: Player,
        mr: int,
        mc: int,
        dx: int,
        dy: int,
        r: int,
        c: int,
    ) -> bool {
        exists|j: int|
            #[trigger] self.flip_step(player, mr, mc, dx, dy, j) && r == mr + j * dx && c == mc + j
                * dy
    }

    /// Cell (r, c) is flipped by a move of `player` at (mr, mc): it lies
    /// strictly inside a confirmed bracket in some direction.
    pub open spec fn flipped(self, player: Player, mr: int, mc: int, r: int, c: int) -> bool {
        exists|dx: int, dy: int|
            Self::is_dir(dx, dy) && #[trigger] self.flipped_in_dir(player, mr, mc, dx, dy, r, c)
    }

    /// The board after `player` moves at (mr, mc): the target cell gets the
    /// mover's disc, every flipped cell gets the mover's disc, and every
    /// other cell keeps its value.
    pub open spec fn place(self, player: Player, mr: int, mc: int) -> BoardModel {
        BoardModel {
            size: self.size,
            cells: Seq::new(
                self.cells.len(),
                |r: int|
                    Seq::new(
                        self.cells[r].len(),
                        |c: int|
                            if r == mr && c == mc {
                                Some(player)
                            } else if self.flipped(player, mr, mc, r, c) {
                                Some(player)
                            } else {
                                self.cells[r][c]
                            },
                    ),
            ),
        }
    }

    /// `player` has at least one legal move.
    pub open spec fn has_move(self, player: Player) -> bool {
        exists|r: int, c: int| self.is_legal(player, r, c)
    }

    /// The legal moves of row `r` among columns 0..k, in column order.
    pub open spec fn legal_row(self, player: Player, r: int, k: int) -> Seq<(usize, usize)>
        decreases k,
    {
        if k <= 0 {
            Seq::empty()
        } else {
            self.legal_row(player, r, k - 1) + if self.is_legal(player, r, k - 1) {
                seq![((r as usize), ((k - 1) as usize))]
            } else {
                Seq::empty()
            }
        }
    }

    /// The legal moves of the first `rk` rows, in row-major order.
    pub open spec fn legal_upto(self, player: Player, rk: int) -> Seq<(usize, usize)>
        decreases rk,
    {
        if rk <= 0 {
            Seq::empty()
        } else {
            self.legal_upto(player, rk - 1) + self.legal_row(player, rk - 1, self.size)
        }
    }

    /// All legal moves for `player`, in row-major order.
    pub open spec fn legal_seq(self, player: Player) -> Seq<(usize, usize)> {
        self.legal_upto(player, self.size)
    }

    /// The number of `player`'s discs on the whole board.
    pub open spec fn count(self, player: Player) -> int {
        count_grid(self.cells, player, self.cells.len() as int)
    }

    /// The number of cells among columns 0..k of row `r` that a move of
    /// `player` at (mr, mc) flips.
    pub open spec fn flip_count_row(
        self,
        player: Player,
        mr: int,
        mc: int,
        r: int,
        k: int,
    ) -> int
        decreases k,
    {
        if k <= 0 {
            0
        } else {
            self.flip_count_row(player, mr, mc, r, k - 1) + if self.flipped(
                player,
                mr,
                mc,
                r,
                k - 1,
            ) {
                1int
            } else {
                0int
            }
        }
    }

    /// The number of cells in the first `rk` rows that a move of `player` at
    /// (mr, mc) flips.
    pub open spec fn flip_count_upto(self, player: Player, mr: int, mc: int, rk: int) -> int
        decreases rk,
    {
        if rk <= 0 {
            0
        } else {
            self.flip_count_upto(player, mr, mc, rk - 1) + self.flip_count_row(
                player,
                mr,
                mc,
                rk - 1,
                self.size,
            )
        }
    }

    /// The number of discs that a move of `player` at (mr, mc) flips.
    pub open spec fn flip_count(self, player: Player, mr: int, mc: int) -> int {
        self.flip_count_upto(player, mr, mc, self.size)
    }
}

/// The number of `player`'s discs among the first `k` cells of one row.
pub open spec fn count_row(row: Seq<Option<Player>>, player: Player, k: int) -> int
    decreases k,
{
    if k <= 0 {
        0
    } else {
        count_row(row, player, k - 1) + if row[k - 1] == Some(player) {
            1int
        } else {
            0int
        }
    }
}

/// The number of `player`'s discs in the first `rk` full rows.
pub open spec fn count_grid(cells: Seq<Seq<Option<Player>>>, player: Player, rk: int) -> int
    decreases rk,
{
    if rk <= 0 {
        0
    } else {
        count_grid(cells, player, rk - 1) + count_row(
            cells[rk - 1],
            player,
            cells[rk - 1].len() as int,
        )
    }
}

/// A row's disc count is between 0 and the number of cells counted.
proof fn lemma_count_row_bounds(row: Seq<Option<Player>>, player: Player, k: int)
    requires
        0 <= k,
    ensures
        0 <= count_row(row, player, k) <= k,
    decreases k,
{
    if k > 0 {
        lemma_count_row_bounds(row, player, k - 1);
    }
}

/// A grid's disc count is between 0 and the number of cells counted.
proof fn lemma_count_grid_bounds(
    cells: Seq<Seq<Option<Player>>>,
    player: Player,
    rk: int,
    w: int,
)
    requires
        0 <= rk <= cells.len(),
        0 <= w,
        forall|r: int| 0 <= r < rk ==> (#[trigger] cells[r]).len() <= w,
    ensures
        0 <= count_grid(cells, player, rk) <= rk * w,
    decreases rk,
{
    if rk > 0 {
        lemma_count_grid_bounds(cells, player, rk - 1, w);
        lemma_count_row_bounds(cells[rk - 1], player, cells[rk - 1].len() as int);
        assert((rk - 1) * w + w == rk * w) by (nonlinear_arith);
    }
}

/// On a well-formed board each side holds at most 64 discs.
pub proof fn lemma_count_bounds(b: BoardModel, player: Player)
    requires
        b.wf(),
    ensures
        0 <= b.count(player) <= 64,
{
    lemma_count_grid_bounds(b.cells, player, b.size, 8);
    assert(b.size * 8 <= 64) by (nonlinear_arith)
        requires
            b.size <= 8,
    ;
}

/// A flipped cell lies on the grid and holds an opponent disc before the
/// move.
proof fn lemma_flipped_is_opponent(
    b: BoardModel,
    player: Player,
    mr: int,
    mc: int,
    r: int,
    c: int,
)
    requires
        b.flipped(player, mr, mc, r, c),
    ensures
        b.in_bounds(r, c),
        b.cell(r, c) == Some(player.opponent_spec()),
{
    let (dx, dy) = choose|dx: int, dy: int|
        BoardModel::is_dir(dx, dy) && #[trigger] b.flipped_in_dir(player, mr, mc, dx, dy, r, c);
    let j = choose|j: int|
        #[trigger] b.flip_step(player, mr, mc, dx, dy, j) && r == mr + j * dx && c == mc + j * dy;
    let n = choose|n: int| b.brackets(player, mr, mc, dx, dy, n) && j < n;
    assert(b.opp_at(player, mr, mc, dx, dy, j));
}

/// The move's own target cell is never among the flipped cells.
proof fn lemma_move_cell_not_flipped(b: BoardModel, player: Player, mr: int, mc: int)
    ensures
        !b.flipped(player, mr, mc, mr, mc),
{
    if b.flipped(player, mr, mc, mr, mc) {
        let (dx, dy) = choose|dx: int, dy: int|
            BoardModel::is_dir(dx, dy) && #[trigger] b.flipped_in_dir(
                player,
                mr,
                mc,
                dx,
                dy,
                mr,
                mc,
            );
        let j = choose|j: int|
            #[trigger] b.flip_step(player, mr, mc, dx, dy, j) && mr == mr + j * dx && mc == mc + j
                * dy;
        assert(dx == 0) by (nonlinear_arith)
            requires
                j >= 1,
                j * dx == 0,
        ;
        assert(dy == 0) by (nonlinear_arith)
            requires
                j >= 1,
                j * dy == 0,
        ;
    }
}

/// Placing a disc keeps the board well-formed.
pub proof fn lemma_place_wf(b: BoardModel, player: Player, mr: int, mc: int)
    requires
        b.wf(),
    ensures
        b.place(player, mr, mc).wf(),
{
    let pb = b.place(player, mr, mc);
    assert forall|r: int| 0 <= r < pb.size implies (#[trigger] pb.cells[r]).len() == pb.size by {
        assert(b.cells[r].len() == b.size);
    }
}

/// One row's counts after a move: the mover gains every flipped cell of the
/// row, plus the placed disc if it lies in the counted range, and the
/// opponent loses exactly the flipped cells.
proof fn lemma_place_count_row(b: BoardModel, player: Player, mr: int, mc: int, r: int, k: int)
    requires
        b.wf(),
        b.is_legal(player, mr, mc),
        0 <= r < b.size,
        0 <= k <= b.size,
    ensures
        count_row(b.place(player, mr, mc).cells[r], player, k) == count_row(b.cells[r], player, k)
            + b.flip_count_row(player, mr, mc, r, k) + (if r == mr && mc < k {
            1int
        } else {
            0int
        }),
        count_row(b.place(player, mr, mc).cells[r], player.opponent_spec(), k) == count_row(
            b.cells[r],
            player.opponent_spec(),
            k,
        ) - b.flip_count_row(player, mr, mc, r, k),
    decreases k,
{
    let pb = b.place(player, mr, mc);
    let opp = player.opponent_spec();
    assert(pb.cells[r].len() == b.cells[r].len());
    if k > 0 {
        lemma_place_count_row(b, player, mr, mc, r, k - 1);
        let c = k - 1;
        assert(pb.cells[r][c] == (if r == mr && c == mc {
            Some(player)
        } else if b.flipped(player, mr, mc, r, c) {
            Some(player)
        } else {
            b.cells[r][c]
        }));
        if r == mr && c == mc {
            lemma_move_cell_not_flipped(b, player, mr, mc);
            assert(b.cell(mr, mc) is None);
            assert(b.cells[r][c] is None);
        } else if b.flipped(player, mr, mc, r, c) {
            lemma_flipped_is_opponent(b, player, mr, mc, r, c);
            assert(b.cells[r][c] == Some(opp));
        }
    }
}

/// The whole grid's counts after a move, over the first `rk` rows.
proof fn lemma_place_count_grid(b: BoardModel, player: Player, mr: int, mc: int, rk: int)
    requires
        b.wf(),
        b.is_legal(player, mr, mc),
        0 <= rk <= b.size,
    ensures
        count_grid(b.place(player, mr, mc).cells, player, rk) == count_grid(b.cells, player, rk)
            + b.flip_count_upto(player, mr, mc, rk) + (if mr < rk {
            1int
        } else {
            0int
        }),
        count_grid(b.place(player, mr, mc).cells, player.opponent_spec(), rk) == count_grid(
            b.cells,
            player.opponent_spec(),
            rk,
        ) - b.flip_count_upto(player, mr, mc, rk),
    decreases rk,
{
    let pb = b.place(player, mr, mc);
    if rk > 0 {
        lemma_place_count_grid(b, player, mr, mc, rk - 1);
        lemma_place_count_row(b, player, mr, mc, rk - 1, b.size);
        assert(pb.cells[rk - 1].len() == b.size);
        assert(b.cells[rk - 1].len() == b.size);
    }
}

/// A non-negative flip tally, row portion.
proof fn lemma_flip_count_row_nonneg(
    b: BoardModel,
    player: Player,
    mr: int,
    mc: int,
    r: int,
    k: int,
)
    ensures
        0 <= b.flip_count_row(player, mr, mc, r, k),
    decreases k,
{
    if k > 0 {
        lemma_flip_count_row_nonneg(b, player, mr, mc, r, k - 1);
    }
}

/// A non-negative flip tally, grid portion.
proof fn lemma_flip_count_upto_nonneg(b: BoardModel, player: Player, mr: int, mc: int, rk: int)
    ensures
        0 <= b.flip_count_upto(player, mr, mc, rk),
    decreases rk,
{
    if rk > 0 {
        lemma_flip_count_upto_nonneg(b, player, mr, mc, rk - 1);
        lemma_flip_count_row_nonneg(b, player, mr, mc, rk - 1, b.size);
    }
}

/// A flipped cell within the counted range makes the row tally positive.
proof fn lemma_flip_count_row_pos(
    b: BoardModel,
    player: Player,
    mr: int,
    mc: int,
    r: int,
    c: int,
    k: int,
)
    requires
        0 <= c < k,
        b.flipped(player, mr, mc, r, c),
    ensures
        b.flip_count_row(player, mr, mc, r, k) >= 1,
    decreases k,
{
    if c == k - 1 {
        lemma_flip_count_row_nonneg(b, player, mr, mc, r, k - 1);
    } else {
        lemma_flip_count_row_pos(b, player, mr, mc, r, c, k - 1);
    }
}

/// A flipped cell on the grid makes the whole flip tally positive.
proof fn lemma_flip_count_pos(b: BoardModel, player: Player, mr: int, mc: int, r: int, c: int)
    requires
        b.wf(),
        b.in_bounds(r, c),
        b.flipped(player, mr, mc, r, c),
    ensures
        b.flip_count(player, mr, mc) >= 1,
{
    lemma_flip_count_upto_pos(b, player, mr, mc, r, c, b.size);
}

/// A flipped cell with row below `rk` makes the partial flip tally positive.
proof fn lemma_flip_count_upto_pos(
    b: BoardModel,
    player: Player,
    mr: int,
    mc: int,
    r: int,
    c: int,
    rk: int,
)
    requires
        b.wf(),
        b.in_bounds(r, c),
        r < rk <= b.size,
        b.flipped(player, mr, mc, r, c),
    ensures
        b.flip_count_upto(player, mr, mc, rk) >= 1,
    decreases rk,
{
    if r == rk - 1 {
        lemma_flip_count_row_pos(b, player, mr, mc, r, c, b.size);
        lemma_flip_count_upto_nonneg(b, player, mr, mc, rk - 1);
    } else {
        lemma_flip_count_upto_pos(b, player, mr, mc, r, c, rk - 1);
        lemma_flip_count_row_nonneg(b, player, mr, mc, rk - 1, b.size);
    }
}

/// A legal move strictly helps the mover: the new board gives the mover one
/// placed disc plus every flipped disc, takes the same flipped discs from the
/// opponent, and flips at least one disc.
pub proof fn lemma_place_counts(b: BoardModel, player: Player, mr: int, mc: int)
    requires
        b.wf(),
        b.is_legal(player, mr, mc),
    ensures
        b.place(player, mr, mc).count(player) == b.count(player) + 1 + b.flip_count(
            player,
            mr,
            mc,
        ),
        b.place(player, mr, mc).count(player.opponent_spec()) == b.count(player.opponent_spec())
            - b.flip_count(player, mr, mc),
        b.flip_count(player, mr, mc) >= 1,
{
    lemma_place_count_grid(b, player, mr, mc, b.size);
    assert(b.place(player, mr, mc).cells.len() == b.size);
    let (dx, dy) = choose|dx: int, dy: int|
        BoardModel::is_dir(dx, dy) && #[trigger] b.legal_in_dir(player, mr, mc, dx, dy);
    let n = choose|n: int| b.brackets(player, mr, mc, dx, dy, n);
    assert(b.flip_step(player, mr, mc, dx, dy, 1));
    assert(b.opp_at(player, mr, mc, dx, dy, 1));
    assert(mr + dx == mr + 1 * dx && mc + dy == mc + 1 * dy);
    assert(b.flipped_in_dir(player, mr, mc, dx, dy, mr + dx, mc + dy));
    assert(b.flipped(player, mr, mc, mr + dx, mc + dy));
    lemma_flip_count_pos(b, player, mr, mc, mr + dx, mc + dy);
}

/// The number of occupied cells on the board.
pub open spec fn occupied(b: BoardModel) -> int {
    b.count(Player::Black) + b.count(Player::White)
}

/// One row holds at most `k` discs over its first `k` cells, and one fewer
/// when a cell in range is known empty.
proof fn lemma_joint_count_row(row: Seq<Option<Player>>, k: int, c0: int)
    requires
        0 <= k,
    ensures
        count_row(row, Player::Black, k) + count_row(row, Player::White, k) <= k,
        0 <= c0 < k && row[c0] is None ==> count_row(row, Player::Black, k) + count_row(
            row,
            Player::White,
            k,
        ) <= k - 1,
    decreases k,
{
    if k > 0 {
        lemma_joint_count_row(row, k - 1, c0);
    }
}

/// The first `rk` rows hold at most `rk * w` discs, and one fewer when a
/// cell in range is known empty.
proof fn lemma_joint_count_grid(
    cells: Seq<Seq<Option<Player>>>,
    rk: int,
    w: int,
    r0: int,
    c0: int,
)
    requires
        0 <= rk <= cells.len(),
        0 <= w,
        forall|r: int| 0 <= r < rk ==> (#[trigger] cells[r]).len() == w,
    ensures
        count_grid(cells, Player::Black, rk) + count_grid(cells, Player::White, rk) <= rk * w,
        0 <= r0 < rk && 0 <= c0 < w && cells[r0][c0] is None ==> count_grid(
            cells,
            Player::Black,
            rk,
        ) + count_grid(cells, Player::White, rk) <= rk * w - 1,
    decreases rk,
{
    if rk > 0 {
        lemma_joint_count_grid(cells, rk - 1, w, r0, c0);
        if r0 == rk - 1 {
            lemma_joint_count_row(cells[rk - 1], w, c0);
        } else {
            lemma_joint_count_row(cells[rk - 1], w, -1);
        }
        assert((rk - 1) * w + w == rk * w) by (nonlinear_arith);
    }
}

/// A board with an empty cell is not full: its occupied-cell tally stays
/// strictly below the cell count.
pub proof fn lemma_occupied_below_full(b: BoardModel, r0: int, c0: int)
    requires
        b.wf(),
        b.in_bounds(r0, c0),
        b.cell(r0, c0) is None,
    ensures
        occupied(b) <= b.size * b.size - 1,
{
    lemma_joint_count_grid(b.cells, b.size, b.size, r0, c0);
}

/// The requested side length, rounded up to even and clamped to [2, 8].
pub open spec fn clamped_size(n: int) -> int {
    let m = if n % 2 == 1 {
        n + 1
    } else {
        n
    };
    if m < 2 {
        2
    } else if m > 8 {
        8
    } else {
        m
    }
}

/// The starting cell contents: the four centre cells hold the standard
/// diagonal pattern and every other cell is empty.
pub open spec fn init_cell(size: int, r: int, c: int) -> Option<Player> {
    let upper = size / 2;
    let lower = upper - 1;
    if r == lower && c == lower {
        Some(Player::White)
    } else if r == lower && c == upper {
        Some(Player::Black)
    } else if r == upper && c == lower {
        Some(Player::Black)
    } else if r == upper && c == upper {
        Some(Player::White)
    } else {
        None
    }
}

/// The starting board for a requested side length.
pub open spec fn init_board(n: int) -> BoardModel {
    let size = clamped_size(n);
    BoardModel {
        size,
        cells: Seq::new(
            size as nat,
            |r: int| Seq::new(size as nat, |c: int| init_cell(size, r, c)),
        ),
    }
}

/// The coordinates of the `j`-th step from (mr, mc) along (dx, dy).
spec fn step_cell(mr: int, mc: int, dx: int, dy: int, j: int) -> (usize, usize) {
    (((mr + j * dx) as usize), ((mc + j * dy) as usize))
}

/// Linear search for a coordinate pair in a collected run of cells.
fn contains_cell(v: &Vec<Move>, r: usize, c: usize) -> (res: bool)
    ensures
        res == v@.contains((r, c)),
{
    let mut i: usize = 0;
    while i < v.len()
        invariant
            i <= v@.len(),
            forall|k: int| 0 <= k < i ==> v@[k] != (r, c),
        decreases v@.len() - i,
    {
        let m = v[i];
        if m.0 == r && m.1 == c {
            assert(v@[i as int] == (r, c));
            return true;
        }
        i = i + 1;
    }
    assert(!v@.contains((r, c)));
    false
}

/// A cell is flipped exactly when one of the eight compass directions flips
/// it.
proof fn lemma_flipped_dirs(
    b: BoardModel,
    player: Player,
    mr: int,
    mc: int,
    r: int,
    c: int,
)
    ensures
        b.flipped(player, mr, mc, r, c) <==> (b.flipped_in_dir(player, mr, mc, 1, 1, r, c)
            || b.flipped_in_dir(player, mr, mc, 1, 0, r, c) || b.flipped_in_dir(
            player,
            mr,
            mc,
            1,
            -1,
            r,
            c,
        ) || b.flipped_in_dir(player, mr, mc, 0, 1, r, c) || b.flipped_in_dir(
            player,
            mr,
            mc,
            0,
            -1,
            r,
            c,
        ) || b.flipped_in_dir(player, mr, mc, -1, 1, r, c) || b.flipped_in_dir(
            player,
            mr,
            mc,
            -1,
            0,
            r,
            c,
        ) || b.flipped_in_dir(player, mr, mc, -1, -1, r, c)),
{
    if b.flipped(player, mr, mc, r, c) {
        let (dx, dy) = choose|dx: int, dy: int|
            BoardModel::is_dir(dx, dy) && #[trigger] b.flipped_in_dir(
                player,
                mr,
                mc,
                dx,
                dy,
                r,
                c,
            );
        assert(dx == -1 || dx == 0 || dx == 1);
        assert(dy == -1 || dy == 0 || dy == 1);
    }
    assert(BoardModel::is_dir(1, 1));
    assert(BoardModel::is_dir(1, 0));
    assert(BoardModel::is_dir(1, -1));
    assert(BoardModel::is_dir(0, 1));
    assert(BoardModel::is_dir(0, -1));
    assert(BoardModel::is_dir(-1, 1));
    assert(BoardModel::is_dir(-1, 0));
    assert(BoardModel::is_dir(-1, -1));
}

/// What the row enumeration holds: exactly the legal moves of row `r` with
/// column below `k`.
proof fn lemma_legal_row_contains(
    b: BoardModel,
    player: Player,
    r: int,
    k: int,
    mv: (usize, usize),
)
    requires
        b.wf(),
        0 <= r < b.size,
        0 <= k <= b.size,
    ensures
        b.legal_row(player, r, k).contains(mv) <==> (mv.0 as int == r && (mv.1 as int) < k
            && b.is_legal(player, r, mv.1 as int)),
    decreases k,
{
    let cur = b.legal_row(player, r, k);
    if k <= 0 {
        assert(!cur.contains(mv));
    } else {
        lemma_legal_row_contains(b, player, r, k - 1, mv);
        let prev = b.legal_row(player, r, k - 1);
        if b.is_legal(player, r, k - 1) {
            let tail = seq![((r as usize), ((k - 1) as usize))];
            assert(cur == prev + tail);
            if cur.contains(mv) {
                let i = choose|i: int| 0 <= i < cur.len() && cur[i] == mv;
                if i < prev.len() {
                    assert(prev[i] == mv);
                    assert(prev.contains(mv));
                } else {
                    assert(mv == ((r as usize), ((k - 1) as usize)));
                }
            }
            if mv.0 as int == r && (mv.1 as int) < k && b.is_legal(player, r, mv.1 as int) {
                if (mv.1 as int) < k - 1 {
                    let i = choose|i: int| 0 <= i < prev.len() && prev[i] == mv;
                    assert(cur[i] == mv);
                    assert(cur.contains(mv));
                } else {
                    assert(cur[prev.len() as int] == mv);
                    assert(cur.contains(mv));
                }
            }
        } else {
            assert(cur =~= prev);
        }
    }
}

/// What the grid enumeration holds: exactly the legal moves with row below
/// `rk`.
proof fn lemma_legal_upto_contains(
    b: BoardModel,
    player: Player,
    rk: int,
    mv: (usize, usize),
)
    requires
        b.wf(),
        0 <= rk <= b.size,
    ensures
        b.legal_upto(player, rk).contains(mv) <==> ((mv.0 as int) < rk && b.is_legal(
            player,
            mv.0 as int,
            mv.1 as int,
        )),
    decreases rk,
{
    let cur = b.legal_upto(player, rk);
    if rk <= 0 {
        assert(!cur.contains(mv));
    } else {
        lemma_legal_upto_contains(b, player, rk - 1, mv);
        lemma_legal_row_contains(b, player, rk - 1, b.size, mv);
        let prev = b.legal_upto(player, rk - 1);
        let tail = b.legal_row(player, rk - 1, b.size);
        assert(cur == prev + tail);
        if cur.contains(mv) {
            let i = choose|i: int| 0 <= i < cur.len() && cur[i] == mv;
            if i < prev.len() {
                assert(prev[i] == mv);
                assert(prev.contains(mv));
            } else {
                assert(tail[i - prev.len()] == mv);
                assert(tail.contains(mv));
            }
        }
        if (mv.0 as int) < rk && b.is_legal(player, mv.0 as int, mv.1 as int) {
            if (mv.0 as int) < rk - 1 {
                let i = choose|i: int| 0 <= i < prev.len() && prev[i] == mv;
                assert(cur[i] == mv);
                assert(cur.contains(mv));
            } else {
                assert(tail.contains(mv));
                let i = choose|i: int| 0 <= i < tail.len() && tail[i] == mv;
                assert(cur[prev.len() + i] == mv);
                assert(cur.contains(mv));
            }
        }
    }
}

/// The enumerated sequence holds exactly the legal moves.
pub proof fn lemma_legal_seq_contains(b: BoardModel, player: Player, mv: (usize, usize))
    requires
        b.wf(),
    ensures
        b.legal_seq(player).contains(mv) <==> b.is_legal(player, mv.0 as int, mv.1 as int),
{
    lemma_legal_upto_contains(b, player, b.size, mv);
}

/// The enumerated sequence is empty exactly when no legal move exists.
pub proof fn lemma_has_move_iff(b: BoardModel, player: Player)
    requires
        b.wf(),
    ensures
        b.legal_seq(player).len() > 0 <==> b.has_move(player),
{
    if b.legal_seq(player).len() > 0 {
        let mv = b.legal_seq(player)[0];
        assert(b.legal_seq(player).contains(mv));
        lemma_legal_seq_contains(b, player, mv);
        assert(b.is_legal(player, mv.0 as int, mv.1 as int));
    }
    if b.has_move(player) {
        let (r, c) = choose|r: int, c: int| b.is_legal(player, r, c);
        let mv = ((r as usize), (c as usize));
        lemma_legal_seq_contains(b, player, mv);
        assert(b.legal_seq(player).contains(mv));
    }
}

/// Two bracket lengths in one direction from one cell agree: the nearer own
/// disc ends the unique maximal opponent run.
proof fn lemma_bracket_unique(
    b: BoardModel,
    player: Player,
    r: int,
    c: int,
    dx: int,
    dy: int,
    n1: int,
    n2: int,
)
    requires
        b.brackets(player, r, c, dx, dy, n1),
        b.brackets(player, r, c, dx, dy, n2),
    ensures
        n1 == n2,
{
    if n1 < n2 {
        assert(b.opp_at(player, r, c, dx, dy, n1));
    }
    if n2 < n1 {
        assert(b.opp_at(player, r, c, dx, dy, n2));
    }
}

/// One starting row's disc tally: the two centre rows hold one disc of each
/// side, every other row none.
proof fn lemma_init_count_row(size: int, r: int, player: Player, k: int)
    requires
        2 <= size <= 8,
        size % 2 == 0,
        0 <= k <= size,
    ensures
        count_row(Seq::new(size as nat, |c: int| init_cell(size, r, c)), player, k) == (if r
            == size / 2 - 1 || r == size / 2 {
            (if size / 2 - 1 < k && init_cell(size, r, size / 2 - 1) == Some(player) {
                1int
            } else {
                0int
            }) + (if size / 2 < k && init_cell(size, r, size / 2) == Some(player) {
                1int
            } else {
                0int
            })
        } else {
            0int
        }),
    decreases k,
{
    if k > 0 {
        lemma_init_count_row(size, r, player, k - 1);
    }
}

/// The starting grid's disc tally over the first `rk` rows.
proof fn lemma_init_count_grid(size: int, player: Player, rk: int)
    requires
        2 <= size <= 8,
        size % 2 == 0,
        0 <= rk <= size,
    ensures
        count_grid(
            Seq::new(size as nat, |r: int| Seq::new(size as nat, |c: int| init_cell(size, r, c))),
            player,
            rk,
        ) == (if rk >= size / 2 + 1 {
            2int
        } else if rk >= size / 2 {
            1int
        } else {
            0int
        }),
    decreases rk,
{
    if rk > 0 {
        lemma_init_count_grid(size, player, rk - 1);
        lemma_init_count_row(size, rk - 1, player, size);
    }
}

/// A fresh board holds exactly two discs of each side.
pub proof fn lemma_init_counts(n: int)
    requires
        0 <= n,
    ensures
        init_board(n).count(Player::Black) == 2,
        init_board(n).count(Player::White) == 2,
        init_board(n).wf(),
{
    let size = clamped_size(n);
    lemma_init_count_grid(size, Player::Black, size);
    lemma_init_count_grid(size, Player::White, size);
}

/// A square grid of cells. Board values are immutable game positions: every
/// mutating operation returns a new board.
pub struct Board {
    grid: Vec<Vec<Option<Player>>>,
    size: usize,
}

impl View for Board {
    type V = BoardModel;

    closed spec fn view(&self) -> BoardModel {
        BoardModel {
            size: self.size as int,
            cells: Seq::new(self.grid@.len(), |r: int| self.grid@[r]@),
        }
    }
}

impl Board {
    /// A fresh board of the requested side length (rounded up to even and
    /// clamped to [2, 8]), holding only the four starting discs.
    pub fn new(board_size: usize) -> (b: Board)
        ensures
            b@ == init_board(board_size as int),
            b@.wf(),
    {
        let size: usize = if board_size >= 8 {
            8
        } else {
            let m = if board_size % 2 == 1 {
                board_size + 1
            } else {
                board_size
            };
            if m < 2 {
                2
            } else {
                m
            }
        };
        assert(size as int == clamped_size(board_size as int));
        let upper = size / 2;
        let lower = upper - 1;

        let mut grid: Vec<Vec<Option<Player>>> = Vec::new();
        let mut row_idx: usize = 0;
        while row_idx < size
            invariant
                row_idx <= size,
                2 <= size <= 8,
                upper == size / 2,
                lower == upper - 1,
                grid@.len() == row_idx,
                forall|r: int| #![trigger grid@[r]]
                    0 <= r < row_idx ==> grid@[r]@ =~= Seq::new(
                        size as nat,
                        |c: int| init_cell(size as int, r, c),
                    ),
            decreases size - row_idx,
        {
            let mut row: Vec<Option<Player>> = Vec::new();
            let mut col_idx: usize = 0;
            while col_idx < size
                invariant
                    col_idx <= size,
                    2 <= size <= 8,
                    upper == size / 2,
                    lower == upper - 1,
                    row@.len() == col_idx,
                    forall|c: int|
                        0 <= c < col_idx ==> row@[c] == init_cell(
                            size as int,
                            row_idx as int,
                            c,
                        ),
                decreases size - col_idx,
            {
                let val: Option<Player> = if row_idx == lower && col_idx == lower {
                    Some(Player::White)
                } else if row_idx == lower && col_idx == upper {
                    Some(Player::Black)
                } else if row_idx == upper && col_idx == lower {
                    Some(Player::Black)
                } else if row_idx == upper && col_idx == upper {
                    Some(Player::White)
                } else {
                    None
                };
                row.push(val);
                col_idx = col_idx + 1;
            }
            grid.push(row);
            row_idx = row_idx + 1;
        }

        let b = Board { grid, size };
        proof {
            assert(b@ =~~= init_board(board_size as int));
        }
        b
    }

    /// Walks outward from `mv` along (dx, dy) and reports whether the ray
    /// brackets a run of opponent discs for `player`.
    fn check_direction(&self, player: Player, mv: Move, dx: i32, dy: i32) -> (res: bool)
        requires
            self@.wf(),
            self@.in_bounds(mv.0 as int, mv.1 as int),
            BoardModel::is_dir(dx as int, dy as int),
        ensures
            res == self@.legal_in_dir(player, mv.0 as int, mv.1 as int, dx as int, dy as int),
    {
        let ghost mr = mv.0 as int;
        let ghost mc = mv.1 as int;
        let ghost dxi = dx as int;
        let ghost dyi = dy as int;
        let opp = player.opponent();
        let size = self.size;
        let mut x: i32 = mv.0 as i32 + dx;
        let mut y: i32 = mv.1 as i32 + dy;
        assert(x as int == mr + 1 * dxi && y as int == mc + 1 * dyi) by (nonlinear_arith)
            requires
                x as int == mr + dxi,
                y as int == mc + dyi,
        ;

        if x < 0 || x >= size as i32 || y < 0 || y >= size as i32 {
            proof {
                assert forall|n: int| !self@.brackets(player, mr, mc, dxi, dyi, n) by {
                    if self@.brackets(player, mr, mc, dxi, dyi, n) {
                        if n == 1 {
                        } else {
                            assert(self@.opp_at(player, mr, mc, dxi, dyi, 1));
                        }
                    }
                }
            }
            return false;
        }
        proof {
            assert(self.grid@.len() == self@.cells.len());
            assert(self.grid@[x as int]@ == self@.cells[x as int]);
        }
        let first = self.grid[x as usize][y as usize];
        assert(first == self@.ray(mr, mc, dxi, dyi, 1));
        let first_is_opp = match first {
            Some(p) => p == opp,
            None => false,
        };
        if !first_is_opp {
            proof {
                assert forall|n: int| !self@.brackets(player, mr, mc, dxi, dyi, n) by {
                    if self@.brackets(player, mr, mc, dxi, dyi, n) {
                        assert(self@.opp_at(player, mr, mc, dxi, dyi, 1));
                    }
                }
            }
            return false;
        }
        assert(self@.opp_at(player, mr, mc, dxi, dyi, 1));

        let ghost mut j: int = 2;
        assert(x as int + dxi == mr + 2 * dxi && y as int + dyi == mc + 2 * dyi)
            by (nonlinear_arith)
            requires
                x as int == mr + 1 * dxi,
                y as int == mc + 1 * dyi,
        ;
        x = x + dx;
        y = y + dy;

        loop
            invariant
                self@.wf(),
                BoardModel::is_dir(dxi, dyi),
                dxi == dx as int,
                dyi == dy as int,
                mr == mv.0 as int,
                mc == mv.1 as int,
                self@.in_bounds(mr, mc),
                opp == player.opponent_spec(),
                size == self.size,
                size as int == self@.size,
                2 <= j <= 9,
                x as int == mr + j * dxi,
                y as int == mc + j * dyi,
                -2 <= x <= 9,
                -2 <= y <= 9,
                forall|jj: int| 1 <= jj < j ==> self@.opp_at(player, mr, mc, dxi, dyi, jj),
            decreases 10 - j,
        {
            if x < 0 || x >= size as i32 || y < 0 || y >= size as i32 {
                proof {
                    assert(!self@.ray_in(mr, mc, dxi, dyi, j));
                    assert forall|n: int| !self@.brackets(player, mr, mc, dxi, dyi, n) by {
                        if self@.brackets(player, mr, mc, dxi, dyi, n) {
                            if n < j {
                                assert(self@.opp_at(player, mr, mc, dxi, dyi, n));
                            } else if n == j {
                                assert(self@.ray_in(mr, mc, dxi, dyi, j));
                            } else {
                                assert(self@.opp_at(player, mr, mc, dxi, dyi, j));
                            }
                        }
                    }
                }
                return false;
            }
            assert(self@.ray_in(mr, mc, dxi, dyi, j));
            proof {
                assert(self.grid@.len() == self@.cells.len());
                assert(self.grid@[x as int]@ == self@.cells[x as int]);
            }
            let cur = self.grid[x as usize][y as usize];
            assert(cur == self@.ray(mr, mc, dxi, dyi, j));
            match cur {
                None => {
                    proof {
                        assert forall|n: int| !self@.brackets(player, mr, mc, dxi, dyi, n) by {
                            if self@.brackets(player, mr, mc, dxi, dyi, n) {
                                if n < j {
                                    assert(self@.opp_at(player, mr, mc, dxi, dyi, n));
                                } else if n == j {
                                } else {
                                    assert(self@.opp_at(player, mr, mc, dxi, dyi, j));
                                }
                            }
                        }
                    }
                    return false;
                },
                Some(p) => {
                    if p == opp {
                        proof {
                            assert(j <= 8) by {
                                if dxi == 1 {
                                    assert(j * 1int == j) by (nonlinear_arith);
                                } else if dxi == -1 {
                                    assert(j * -1int == -j) by (nonlinear_arith);
                                } else if dyi == 1 {
                                    assert(j * 1int == j) by (nonlinear_arith);
                                } else {
                                    assert(j * -1int == -j) by (nonlinear_arith);
                                }
                            }
                            assert(x as int + dxi == mr + (j + 1) * dxi && y as int + dyi == mc + (
                            j + 1) * dyi) by (nonlinear_arith)
                                requires
                                    x as int == mr + j * dxi,
                                    y as int == mc + j * dyi,
                            ;
                        }
                        x = x + dx;
                        y = y + dy;
                        proof {
                            j = j + 1;
                        }
                    } else {
                        proof {
                            assert(p == player);
                            assert(self@.brackets(player, mr, mc, dxi, dyi, j));
                        }
                        return true;
                    }
                },
            }
        }
    }

    /// Places `player`'s disc at `mv`, assumed legal, and flips every
    /// bracketed run of opponent discs; returns the new board and leaves this
    /// one unchanged.
    pub fn place_piece_unchecked(&mut self, player: Player, mv: Move) -> (r: Board)
        requires
            old(self)@.wf(),
            old(self)@.is_legal(player, mv.0 as int, mv.1 as int),
        ensures
            final(self)@ == old(self)@,
            r@ == old(self)@.place(player, mv.0 as int, mv.1 as int),
            r@.wf(),
    {
        let ghost mr = mv.0 as int;
        let ghost mc = mv.1 as int;
        let ghost target = self@.place(player, mr, mc);
        let mut flips: Vec<Move> = Vec::new();
        self.collect_flips(player, mv, 1, 1, &mut flips);
        self.collect_flips(player, mv, 1, 0, &mut flips);
        self.collect_flips(player, mv, 1, -1, &mut flips);
        self.collect_flips(player, mv, 0, 1, &mut flips);
        self.collect_flips(player, mv, 0, -1, &mut flips);
        self.collect_flips(player, mv, -1, 1, &mut flips);
        self.collect_flips(player, mv, -1, 0, &mut flips);
        self.collect_flips(player, mv, -1, -1, &mut flips);
        proof {
            assert forall|p: (usize, usize)|
                #[trigger] flips@.contains(p) <==> self@.flipped(
                    player,
                    mr,
                    mc,
                    p.0 as int,
                    p.1 as int,
                ) by {
                lemma_flipped_dirs(self@, player, mr, mc, p.0 as int, p.1 as int);
            }
        }

        let size = self.size;
        let mut grid: Vec<Vec<Option<Player>>> = Vec::new();
        let mut row_idx: usize = 0;
        while row_idx < size
            invariant
                self@.wf(),
                size == self.size,
                size as int == self@.size,
                target == self@.place(player, mr, mc),
                mr == mv.0 as int,
                mc == mv.1 as int,
                forall|p: (usize, usize)|
                    #[trigger] flips@.contains(p) <==> self@.flipped(
                        player,
                        mr,
                        mc,
                        p.0 as int,
                        p.1 as int,
                    ),
                row_idx <= size,
                grid@.len() == row_idx,
                forall|r: int| #![trigger grid@[r]]
                    0 <= r < row_idx ==> grid@[r]@ =~= target.cells[r],
            decreases size - row_idx,
        {
            let mut row: Vec<Option<Player>> = Vec::new();
            let mut col_idx: usize = 0;
            while col_idx < size
                invariant
                    self@.wf(),
                    size == self.size,
                    size as int == self@.size,
                    target == self@.place(player, mr, mc),
                    mr == mv.0 as int,
                    mc == mv.1 as int,
                    forall|p: (usize, usize)|
                        #[trigger] flips@.contains(p) <==> self@.flipped(
                            player,
                            mr,
                            mc,
                            p.0 as int,
                            p.1 as int,
                        ),
                    row_idx < size,
                    col_idx <= size,
                    row@.len() == col_idx,
                    forall|c: int|
                        0 <= c < col_idx ==> row@[c] == target.cells[row_idx as int][c],
                decreases size - col_idx,
            {
                let val: Option<Player> = if row_idx == mv.0 && col_idx == mv.1 {
                    Some(player)
                } else if contains_cell(&flips, row_idx, col_idx) {
                    Some(player)
                } else {
                    proof {
                        assert(self.grid@.len() == self@.cells.len());
                        assert(self.grid@[row_idx as int]@ == self@.cells[row_idx as int]);
                    }
                    self.grid[row_idx][col_idx]
                };
                proof {
                    assert(flips@.contains((row_idx, col_idx)) == self@.flipped(
                        player,
                        mr,
                        mc,
                        row_idx as int,
                        col_idx as int,
                    ));
                    assert(val == target.cells[row_idx as int][col_idx as int]);
                }
                row.push(val);
                col_idx = col_idx + 1;
            }
            grid.push(row);
            row_idx = row_idx + 1;
        }
        let r = Board { grid, size };
        proof {
            assert(r@ =~~= target);
        }
        r
    }

    /// Places `player`'s disc at `mv` if the move is legal, returning the new
    /// board; returns `None`, and changes nothing, on an illegal move.
    pub fn place_piece(&mut self, player: Player, mv: Move) -> (r: Option<Board>)
        requires
            old(self)@.wf(),
        ensures
            final(self)@ == old(self)@,
            (r is Some) <==> old(self)@.is_legal(player, mv.0 as int, mv.1 as int),
            r matches Some(b) ==> b@ == old(self)@.place(player, mv.0 as int, mv.1 as int)
                && b@.wf(),
    {
        if self.is_legal_move(player, mv) {
            Some(self.place_piece_unchecked(player, mv))
        } else {
            None
        }
    }

    /// Every legal move for `player`, in row-major order. Repeated calls on
    /// one board return the identical sequence.
    pub fn get_legal_moves(&self, player: Player) -> (moves: Vec<Move>)
        requires
            self@.wf(),
        ensures
            moves@ == self@.legal_seq(player),
    {
        let mut moves: Vec<Move> = Vec::new();
        let size = self.size;
        let mut row: usize = 0;
        while row < size
            invariant
                self@.wf(),
                size == self.size,
                size as int == self@.size,
                row <= size,
                moves@ == self@.legal_upto(player, row as int),
            decreases size - row,
        {
            let mut col: usize = 0;
            while col < size
                invariant
                    self@.wf(),
                    size == self.size,
                    size as int == self@.size,
                    row < size,
                    col <= size,
                    moves@ == self@.legal_upto(player, row as int) + self@.legal_row(
                        player,
                        row as int,
                        col as int,
                    ),
                decreases size - col,
            {
                if self.is_legal_move(player, (row, col)) {
                    moves.push((row, col));
                }
                assert(moves@ =~= self@.legal_upto(player, row as int) + self@.legal_row(
                    player,
                    row as int,
                    col as int + 1,
                ));
                col = col + 1;
            }
            assert(moves@ =~= self@.legal_upto(player, row as int + 1));
            row = row + 1;
        }
        moves
    }

    /// Walks outward from `mv` along (dx, dy); if the ray brackets a run of
    /// opponent discs, appends that run's cells to `flips`.
    fn collect_flips(&self, player: Player, mv: Move, dx: i32, dy: i32, flips: &mut Vec<Move>)
        requires
            self@.wf(),
            self@.in_bounds(mv.0 as int, mv.1 as int),
            BoardModel::is_dir(dx as int, dy as int),
        ensures
            forall|p: (usize, usize)|
                #[trigger] final(flips)@.contains(p) <==> (old(flips)@.contains(p)
                    || self@.flipped_in_dir(
                    player,
                    mv.0 as int,
                    mv.1 as int,
                    dx as int,
                    dy as int,
                    p.0 as int,
                    p.1 as int,
                )),
    {
        let ghost mr = mv.0 as int;
        let ghost mc = mv.1 as int;
        let ghost dxi = dx as int;
        let ghost dyi = dy as int;
        let ghost pre = flips@;
        if !self.check_direction(player, mv, dx, dy) {
            proof {
                assert forall|p: (usize, usize)|
                    !self@.flipped_in_dir(player, mr, mc, dxi, dyi, p.0 as int, p.1 as int) by {
                    if self@.flipped_in_dir(player, mr, mc, dxi, dyi, p.0 as int, p.1 as int) {
                        let j = choose|j: int|
                            #[trigger] self@.flip_step(player, mr, mc, dxi, dyi, j) && p.0 as int
                                == mr + j * dxi && p.1 as int == mc + j * dyi;
                        let n = choose|n: int|
                            self@.brackets(player, mr, mc, dxi, dyi, n) && j < n;
                        assert(self@.legal_in_dir(player, mr, mc, dxi, dyi));
                    }
                }
            }
            return ;
        }
        let ghost n = choose|nn: int| self@.brackets(player, mr, mc, dxi, dyi, nn);
        let mut x: i32 = mv.0 as i32 + dx;
        let mut y: i32 = mv.1 as i32 + dy;
        let ghost mut j: int = 1;
        assert(x as int == mr + 1 * dxi && y as int == mc + 1 * dyi) by (nonlinear_arith)
            requires
                x as int == mr + dxi,
                y as int == mc + dyi,
        ;

        loop
            invariant
                self@.wf(),
                BoardModel::is_dir(dxi, dyi),
                dxi == dx as int,
                dyi == dy as int,
                mr == mv.0 as int,
                mc == mv.1 as int,
                self@.in_bounds(mr, mc),
                self@.brackets(player, mr, mc, dxi, dyi, n),
                1 <= j <= n,
                x as int == mr + j * dxi,
                y as int == mc + j * dyi,
                flips@.len() == pre.len() + j - 1,
                forall|i: int| 0 <= i < pre.len() ==> flips@[i] == pre[i],
                forall|i: int|
                    pre.len() <= i < flips@.len() ==> flips@[i] == step_cell(
                        mr,
                        mc,
                        dxi,
                        dyi,
                        i - pre.len() + 1,
                    ),
            ensures
                j == n,
            decreases n - j,
        {
            proof {
                if j < n {
                    assert(self@.opp_at(player, mr, mc, dxi, dyi, j));
                }
                assert(self@.ray_in(mr, mc, dxi, dyi, j));
                assert(self.grid@.len() == self@.cells.len());
                assert(self.grid@[x as int]@ == self@.cells[x as int]);
            }
            let xu = x as usize;
            let yu = y as usize;
            let cur = self.grid[xu][yu];
            assert(cur == self@.ray(mr, mc, dxi, dyi, j));
            let is_own = match cur {
                Some(p) => p == player,
                None => false,
            };
            if is_own {
                proof {
                    if j < n {
                        assert(self@.opp_at(player, mr, mc, dxi, dyi, j));
                        assert(false);
                    }
                }
                break ;
            }
            proof {
                if j == n {
                    assert(self@.ray(mr, mc, dxi, dyi, n) == Some(player));
                    assert(false);
                }
                assert(self@.opp_at(player, mr, mc, dxi, dyi, j));
            }
            flips.push((xu, yu));
            proof {
                assert((xu, yu) == step_cell(mr, mc, dxi, dyi, j));
            }
            assert(x as int + dxi == mr + (j + 1) * dxi && y as int + dyi == mc + (j + 1) * dyi)
                by (nonlinear_arith)
                requires
                    x as int == mr + j * dxi,
                    y as int == mc + j * dyi,
            ;
            x = x + dx;
            y = y + dy;
            proof {
                j = j + 1;
            }
        }

        proof {
            assert forall|p: (usize, usize)|
                #[trigger] flips@.contains(p) <==> (pre.contains(p) || self@.flipped_in_dir(
                    player,
                    mr,
                    mc,
                    dxi,
                    dyi,
                    p.0 as int,
                    p.1 as int,
                )) by {
                if flips@.contains(p) {
                    let i = choose|i: int| 0 <= i < flips@.len() && flips@[i] == p;
                    if i < pre.len() {
                        assert(pre[i] == p);
                        assert(pre.contains(p));
                    } else {
                        let jj = i - pre.len() + 1;
                        assert(p == step_cell(mr, mc, dxi, dyi, jj));
                        assert(self@.opp_at(player, mr, mc, dxi, dyi, jj));
                        assert(self@.flip_step(player, mr, mc, dxi, dyi, jj));
                        assert(self@.flipped_in_dir(player, mr, mc, dxi, dyi, p.0 as int, p.1 as int));
                    }
                }
                if pre.contains(p) {
                    let i = choose|i: int| 0 <= i < pre.len() && pre[i] == p;
                    assert(flips@[i] == p);
                    assert(flips@.contains(p));
                }
                if self@.flipped_in_dir(player, mr, mc, dxi, dyi, p.0 as int, p.1 as int) {
                    let jj = choose|jj: int|
                        #[trigger] self@.flip_step(player, mr, mc, dxi, dyi, jj) && p.0 as int
                            == mr + jj * dxi && p.1 as int == mc + jj * dyi;
                    let nn = choose|nn: int|
                        self@.brackets(player, mr, mc, dxi, dyi, nn) && jj < nn;
                    lemma_bracket_unique(self@, player, mr, mc, dxi, dyi, n, nn);
                    assert(self@.opp_at(player, mr, mc, dxi, dyi, jj));
                    assert(step_cell(mr, mc, dxi, dyi, jj) == p);
                    assert(flips@[pre.len() + jj - 1] == p);
                    assert(flips@.contains(p));
                }
            }
        }
    }

    /// The board's side length.
    pub fn size(&self) -> (s: usize)
        ensures
            s as int == self@.size,
    {
        self.size
    }

    /// The cell at (r, c), for read-only iteration by an external renderer.
    pub fn get_cell(&self, r: usize, c: usize) -> (v: Option<Player>)
        requires
            self@.wf(),
            (r as int) < self@.size,
            (c as int) < self@.size,
        ensures
            v == self@.cell(r as int, c as int),
    {
        proof {
            assert(self.grid@.len() == self@.cells.len());
            assert(self.grid@[r as int]@ == self@.cells[r as int]);
        }
        self.grid[r][c]
    }

    /// The number of discs each side holds, as (Black's count, White's
    /// count).
    pub fn count_pieces(&self) -> (r: (i32, i32))
        requires
            self@.wf(),
        ensures
            r.0 as int == self@.count(Player::Black),
            r.1 as int == self@.count(Player::White),
    {
        let mut black_score: i32 = 0;
        let mut white_score: i32 = 0;
        let size = self.size;
        let mut row: usize = 0;
        while row < size
            invariant
                self@.wf(),
                size == self.size,
                size as int == self@.size,
                row <= size,
                black_score as int == count_grid(self@.cells, Player::Black, row as int),
                white_score as int == count_grid(self@.cells, Player::White, row as int),
            decreases size - row,
        {
            let mut col: usize = 0;
            while col < size
                invariant
                    self@.wf(),
                    size == self.size,
                    size as int == self@.size,
                    row < size,
                    col <= size,
                    black_score as int == count_grid(self@.cells, Player::Black, row as int)
                        + count_row(self@.cells[row as int], Player::Black, col as int),
                    white_score as int == count_grid(self@.cells, Player::White, row as int)
                        + count_row(self@.cells[row as int], Player::White, col as int),
                decreases size - col,
            {
                proof {
                    assert(self.grid@.len() == self@.cells.len());
                    assert(self.grid@[row as int]@ == self@.cells[row as int]);
                    lemma_count_grid_bounds(self@.cells, Player::Black, row as int, 8);
                    lemma_count_grid_bounds(self@.cells, Player::White, row as int, 8);
                    lemma_count_row_bounds(self@.cells[row as int], Player::Black, col as int);
                    lemma_count_row_bounds(self@.cells[row as int], Player::White, col as int);
                    assert(row as int * 8 <= 56) by (nonlinear_arith)
                        requires
                            row as int <= 7,
                    ;
                }
                match self.grid[row][col] {
                    Some(Player::Black) => {
                        black_score = black_score + 1;
                    },
                    Some(Player::White) => {
                        white_score = white_score + 1;
                    },
                    None => {},
                }
                col = col + 1;
            }
            row = row + 1;
        }
        (black_score, white_score)
    }

    /// Whether `mv` is a legal move for `player`: an empty cell from which
    /// some direction brackets a run of opponent discs.
    pub fn is_legal_move(&self, player: Player, mv: Move) -> (r: bool)
        requires
            self@.wf(),
        ensures
            r == self@.is_legal(player, mv.0 as int, mv.1 as int),
    {
        let ghost mr = mv.0 as int;
        let ghost mc = mv.1 as int;
        if mv.0 >= self.size || mv.1 >= self.size {
            return false;
        }
        proof {
            assert(self.grid@.len() == self@.cells.len());
            assert(self.grid@[mv.0 as int]@ == self@.cells[mv.0 as int]);
        }
        let target = self.grid[mv.0][mv.1];
        assert(target == self@.cell(mr, mc));
        if target.is_some() {
            return false;
        }
        let found = self.check_direction(player, mv, 1, 1) || self.check_direction(
            player,
            mv,
            1,
            0,
        ) || self.check_direction(player, mv, 1, -1) || self.check_direction(player, mv, 0, 1)
            || self.check_direction(player, mv, 0, -1) || self.check_direction(player, mv, -1, 1)
            || self.check_direction(player, mv, -1, 0) || self.check_direction(player, mv, -1, -1);
        proof {
            if !found {
                assert forall|dx: int, dy: int|
                    !(BoardModel::is_dir(dx, dy) && #[trigger] self@.legal_in_dir(
                        player,
                        mr,
                        mc,
                        dx,
                        dy,
                    )) by {
                    if BoardModel::is_dir(dx, dy) {
                        assert(dx == -1 || dx == 0 || dx == 1);
                        assert(dy == -1 || dy == 0 || dy == 1);
                    }
                }
            }
        }
        found
    }
}

impl Clone for Board {
    /// An equal position as a fresh, independently owned value.
    fn clone(&self) -> (r: Board)
        ensures
            r@ == self@,
    {
        let mut grid: Vec<Vec<Option<Player>>> = Vec::new();
        let mut i: usize = 0;
        while i < self.grid.len()
            invariant
                i <= self.grid@.len(),
                grid@.len() == i,
                forall|k: int| #![trigger grid@[k]] 0 <= k < i ==> grid@[k]@ == self.grid@[k]@,
            decreases self.grid@.len() - i,
        {
            let mut row: Vec<Option<Player>> = Vec::new();
            let mut c: usize = 0;
            while c < self.grid[i].len()
                invariant
                    i < self.grid@.len(),
                    c <= self.grid@[i as int]@.len(),
                    row@.len() == c,
                    forall|k: int| 0 <= k < c ==> row@[k] == self.grid@[i as int]@[k],
                decreases self.grid@[i as int]@.len() - c,
            {
                row.push(self.grid[i][c]);
                c = c + 1;
            }
            grid.push(row);
            i = i + 1;
        }
        let r = Board { grid, size: self.size };
        proof {
            assert(r@ =~~= self@);
        }
        r
    }
}

} // verus!
