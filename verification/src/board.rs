use vstd::prelude::*;

use crate::arith::lemma_side_fits;
use crate::piece::{covers, Piece};
use crate::text::{number_text, push_char, push_number};

verus! {

/// A square board. A cell holds `0` when it is empty and the number of the
/// player who owns it otherwise; a negative number marks a piece that is
/// only being tried.
#[derive(Clone, Debug)]
pub struct Board {
    pub size: usize,
    pub board: Vec<Vec<i8>>,
}

/// What a player holds of one ninth of the board.
#[derive(Clone, Copy, Debug, PartialEq, Eq)]
pub struct CardinalPointsInfos {
    /// How many cells of the region the player owns.
    pub occupation: usize,
    /// The player owns a cell on the region's first row.
    pub top_border: bool,
    /// The player owns a cell on the region's last row.
    pub bottom_border: bool,
    /// The player owns a cell on the region's first column.
    pub left_border: bool,
    /// The player owns a cell on the region's last column.
    pub right_border: bool,
}

/// The nine regions of the board, three by three.
#[derive(Clone, Copy, Debug, PartialEq, Eq, Hash, Structural)]
pub enum CardinalPoints {
    North,
    South,
    East,
    West,
    Center,
    NorthEast,
    NorthWest,
    SouthEast,
    SouthWest,
}

/// What each player holds of each region of the board, and whether the two
/// players touch yet.
#[derive(Clone, Debug)]
pub struct BoardInfos {
    pub fight_started: bool,
    pub player: Vec<(CardinalPoints, CardinalPointsInfos)>,
    pub opponent: Vec<(CardinalPoints, CardinalPointsInfos)>,
}

/// The `k`-th region of a board of side `n`: its name and its rows
/// `sy..ey` and columns `sx..ex` as `(name, sy, sx, ey, ex)`. Each third is
/// `n / 3` wide; the last one takes what is left.
pub open spec fn region(k: int, n: int) -> (CardinalPoints, int, int, int, int) {
    let t = n / 3;
    if k == 0 {
        (CardinalPoints::North, 0, t, t, 2 * t)
    } else if k == 1 {
        (CardinalPoints::South, 2 * t, t, n, 2 * t)
    } else if k == 2 {
        (CardinalPoints::East, t, 2 * t, 2 * t, n)
    } else if k == 3 {
        (CardinalPoints::West, t, 0, 2 * t, t)
    } else if k == 4 {
        (CardinalPoints::NorthEast, 0, 2 * t, t, n)
    } else if k == 5 {
        (CardinalPoints::NorthWest, 0, 0, t, t)
    } else if k == 6 {
        (CardinalPoints::SouthEast, 2 * t, 2 * t, n, n)
    } else if k == 7 {
        (CardinalPoints::SouthWest, 2 * t, 0, n, t)
    } else {
        (CardinalPoints::Center, t, t, 2 * t, 2 * t)
    }
}

/// What `player` holds of each of the nine regions, in the order of
/// `region`.
pub open spec fn regions_infos(
    g: Seq<Seq<i8>>,
    player: i8,
    r: Seq<(CardinalPoints, CardinalPointsInfos)>,
) -> bool {
    &&& r.len() == 9
    &&& forall|k: int|
        0 <= k < 9 ==> {
            let (name, sy, sx, ey, ex) = region(k, g.len() as int);
            &&& (#[trigger] r[k]).0 == name
            &&& r[k].1 == rect_infos(g, player, sy, sx, ey, ex)
        }
}

/// A position on the board, by row and column; a piece is placed by the
/// position of its frame's corner, which may lie off the board.
#[derive(Clone, Copy, Debug, PartialEq, Eq)]
pub struct Position {
    pub y: isize,
    pub x: isize,
}

/// What putting a piece at `coordinates` would give its player. Distances
/// are kept squared, one for each cell of the piece in the order of
/// `footprint`.
#[derive(Clone, Debug)]
pub struct PlayableCoordinates {
    pub coordinates: Position,
    /// For each cell of the piece, the squared distance to the nearest
    /// opponent's cell, or `None` when the opponents own no cell.
    pub sq_distances: Vec<Option<u128>>,
    /// The number of opponent's cells around the cells of the piece, summed
    /// over the cells of the piece (wide enough that the sum cannot
    /// overflow).
    pub contact_zone_size: u128,
    pub top_border: bool,
    pub bottom_border: bool,
    pub left_border: bool,
    pub right_border: bool,
}

/// `r` tells what `ply` and `opt` hold of each region of board `g`, and
/// whether they touch.
pub open spec fn describes_board(g: Seq<Seq<i8>>, ply: i8, opt: i8, r: BoardInfos) -> bool {
    &&& r.fight_started == exists|i: int, j: int| #[trigger] fight_at(g, ply, opt, i, j)
    &&& regions_infos(g, ply, r.player@)
    &&& regions_infos(g, opt, r.opponent@)
}

impl View for Board {
    type V = Seq<Seq<i8>>;

    open spec fn view(&self) -> Seq<Seq<i8>> {
        self.board@.map_values(|row: Vec<i8>| row@)
    }
}

/// `(i, j)` is a cell of a board of side `n`.
pub open spec fn in_bounds(n: int, i: int, j: int) -> bool {
    0 <= i < n && 0 <= j < n
}

/// A piece may cover cell `(i, j)` for `player`: it lies on the board and is
/// empty or already the player's.
pub open spec fn valid_box(g: Seq<Seq<i8>>, i: int, j: int, player: i8) -> bool {
    in_bounds(g.len() as int, i, j) && (g[i][j] == 0 || g[i][j] == player)
}

/// Every cell of piece `p`, put with its frame's corner at `(y, x)`, may be
/// covered by `player`.
pub open spec fn fits(g: Seq<Seq<i8>>, p: Seq<Seq<Option<char>>>, y: int, x: int, player: i8) -> bool {
    forall|a: int, b: int| #[trigger] covers(p, a, b) ==> valid_box(g, y + a, x + b, player)
}

/// Exactly one cell of piece `p`, put at `(y, x)`, lands on a cell of
/// `player`.
pub open spec fn touches_once(
    g: Seq<Seq<i8>>,
    p: Seq<Seq<Option<char>>>,
    y: int,
    x: int,
    player: i8,
) -> bool {
    exists|a: int, b: int|
        #![trigger covers(p, a, b)]
        {
            &&& covers(p, a, b)
            &&& g[y + a][x + b] == player
            &&& forall|c: int, d: int|
                #![trigger covers(p, c, d)]
                covers(p, c, d) && (c != a || d != b) ==> g[y + c][x + d] != player
        }
}

/// Every cell of piece `p`, put at `(y, x)`, has coordinates that an
/// `isize` holds.
pub open spec fn coords_fit(p: Seq<Seq<Option<char>>>, y: int, x: int) -> bool {
    forall|a: int, b: int| #[trigger] covers(p, a, b) ==> y + a <= isize::MAX && x + b <= isize::MAX
}

/// The rule of the game: a piece may be put at `(y, x)` when all its cells
/// land on the board, on empty cells or the player's own, and exactly one of
/// them on the player's own.
pub open spec fn valid_piece_coord(
    g: Seq<Seq<i8>>,
    p: Seq<Seq<Option<char>>>,
    y: int,
    x: int,
    player: i8,
) -> bool {
    fits(g, p, y, x, player) && touches_once(g, p, y, x, player)
}

/// Cell `(i, j)` after piece `p` is put at `(y, x)` with the mark `v`: the
/// piece writes `v` on the cells it covers that are empty or negative.
pub open spec fn placed_cell(
    g: Seq<Seq<i8>>,
    p: Seq<Seq<Option<char>>>,
    y: int,
    x: int,
    v: i8,
    i: int,
    j: int,
) -> i8 {
    if covers(p, i - y, j - x) && g[i][j] <= 0 {
        v
    } else {
        g[i][j]
    }
}

/// Every cell that piece `p` covers at `(y, x)` lies on the board.
pub open spec fn on_board(g: Seq<Seq<i8>>, p: Seq<Seq<Option<char>>>, y: int, x: int) -> bool {
    forall|a: int, b: int| #[trigger] covers(p, a, b) ==> in_bounds(g.len() as int, y + a, x + b)
}

/// Grid `h` is grid `g` with piece `p` put at `(y, x)` with mark `v`.
pub open spec fn is_placed(
    g: Seq<Seq<i8>>,
    h: Seq<Seq<i8>>,
    p: Seq<Seq<Option<char>>>,
    y: int,
    x: int,
    v: i8,
) -> bool {
    &&& h.len() == g.len()
    &&& forall|i: int| 0 <= i < g.len() ==> #[trigger] h[i].len() == g[i].len()
    &&& forall|i: int, j: int|
        in_bounds(g.len() as int, i, j) ==> #[trigger] h[i][j] == placed_cell(g, p, y, x, v, i, j)
}

/// The cell opposite to `(y, x)` where the second player starts.
pub open spec fn mirror(n: int, c: int) -> int {
    if c > 0 {
        n - c
    } else {
        n - 1
    }
}

/// Every row of `g` is as long as `g` has rows.
pub open spec fn is_square(g: Seq<Seq<i8>>) -> bool {
    forall|i: int| 0 <= i < g.len() ==> #[trigger] g[i].len() == g.len()
}

/// Trying a piece and taking it back leaves the board as it was: when the
/// piece fits for a positive `player`, putting it with `-player` and then
/// with `0` gives back the first board.
pub proof fn lemma_try_then_undo(
    g: Seq<Seq<i8>>,
    h: Seq<Seq<i8>>,
    k: Seq<Seq<i8>>,
    p: Seq<Seq<Option<char>>>,
    y: int,
    x: int,
    player: i8,
)
    requires
        is_square(g),
        player > 0,
        fits(g, p, y, x, player),
        is_placed(g, h, p, y, x, -player as i8),
        is_placed(h, k, p, y, x, 0),
    ensures
        k == g,
{
    assert forall|i: int| 0 <= i < g.len() implies #[trigger] k[i] =~= g[i] by {
        assert forall|j: int| 0 <= j < g[i].len() implies k[i][j] == g[i][j] by {
            assert(h[i][j] == placed_cell(g, p, y, x, -player as i8, i, j));
            assert(k[i][j] == placed_cell(h, p, y, x, 0, i, j));
            if covers(p, i - y, j - x) {
                assert(valid_box(g, y + (i - y), x + (j - x), player));
            }
        }
    }
    assert(k =~= g);
}

/// Marking a piece with `-player` and then confirming it with `player`
/// gives the board that putting it with `player` at once gives, when the
/// piece fits for a positive `player`.
pub proof fn lemma_mark_then_confirm(
    g: Seq<Seq<i8>>,
    h: Seq<Seq<i8>>,
    k: Seq<Seq<i8>>,
    p: Seq<Seq<Option<char>>>,
    y: int,
    x: int,
    player: i8,
)
    requires
        is_square(g),
        player > 0,
        fits(g, p, y, x, player),
        is_placed(g, h, p, y, x, -player as i8),
        is_placed(h, k, p, y, x, player),
    ensures
        is_placed(g, k, p, y, x, player),
{
    assert forall|i: int, j: int| in_bounds(g.len() as int, i, j) implies #[trigger] k[i][j]
        == placed_cell(g, p, y, x, player, i, j) by {
        assert(h[i][j] == placed_cell(g, p, y, x, -player as i8, i, j));
        assert(k[i][j] == placed_cell(h, p, y, x, player, i, j));
        if covers(p, i - y, j - x) {
            assert(valid_box(g, y + (i - y), x + (j - x), player));
        }
    }
}

/// Cell `(i, j)` lies on the board and belongs to a player other than
/// `player`.
pub open spec fn is_opponent(g: Seq<Seq<i8>>, player: i8, i: int, j: int) -> bool {
    in_bounds(g.len() as int, i, j) && g[i][j] != player && g[i][j] > 0
}

/// One when `(i, j)` is an opponent's cell, zero otherwise.
pub open spec fn opponent_count(g: Seq<Seq<i8>>, player: i8, i: int, j: int) -> int {
    if is_opponent(g, player, i, j) {
        1
    } else {
        0
    }
}

/// How many of the eight cells around `(y, x)` belong to an opponent.
pub open spec fn contact(g: Seq<Seq<i8>>, player: i8, y: int, x: int) -> int {
    opponent_count(g, player, y + 1, x) + opponent_count(g, player, y, x + 1) + opponent_count(
        g,
        player,
        y - 1,
        x,
    ) + opponent_count(g, player, y, x - 1) + opponent_count(g, player, y + 1, x + 1)
        + opponent_count(g, player, y - 1, x - 1) + opponent_count(g, player, y - 1, x + 1)
        + opponent_count(g, player, y + 1, x - 1)
}

/// The square of the distance between `(i, j)` and `(y, x)`.
pub open spec fn sq_dist(i: int, j: int, y: int, x: int) -> int {
    (i - y) * (i - y) + (j - x) * (j - x)
}

/// Some cell of the board belongs to an opponent of `player`.
pub open spec fn has_opponent(g: Seq<Seq<i8>>, player: i8) -> bool {
    exists|i: int, j: int| #[trigger] is_opponent(g, player, i, j)
}

/// `d` is the smallest squared distance from `(y, x)` to an opponent's cell.
pub open spec fn is_min_sq(g: Seq<Seq<i8>>, player: i8, y: int, x: int, d: int) -> bool {
    &&& exists|i: int, j: int| #[trigger] is_opponent(g, player, i, j) && sq_dist(i, j, y, x) == d
    &&& forall|i: int, j: int| #[trigger] is_opponent(g, player, i, j) ==> d <= sq_dist(i, j, y, x)
}

/// The squared distance from `(y, x)` to the nearest opponent's cell, or
/// `None` when the opponents have no cell.
pub open spec fn nearest_sq(g: Seq<Seq<i8>>, player: i8, y: int, x: int) -> Option<u128> {
    if has_opponent(g, player) {
        Some((choose|d: int| is_min_sq(g, player, y, x, d)) as u128)
    } else {
        None
    }
}

/// The two players are in contact at `(i, j)`: it is a cell of `player`
/// with a cell of `opponent` right of it, below it, or below and right.
pub open spec fn fight_at(g: Seq<Seq<i8>>, player: i8, opponent: i8, i: int, j: int) -> bool {
    let n = g.len() as int;
    &&& in_bounds(n, i, j)
    &&& g[i][j] == player
    &&& {
        ||| (j + 1 < n && i + 1 < n && g[i + 1][j + 1] == opponent)
        ||| (j + 1 < n && g[i][j + 1] == opponent)
        ||| (i + 1 < n && g[i + 1][j] == opponent)
    }
}

/// How many cells of row `i` between columns `sx` (included) and `ex`
/// (excluded) belong to `player`.
pub open spec fn count_row(g: Seq<Seq<i8>>, player: i8, i: int, sx: int, ex: int) -> int
    decreases ex - sx,
{
    if ex <= sx {
        0
    } else {
        count_row(g, player, i, sx, ex - 1) + (if g[i][ex - 1] == player {
            1int
        } else {
            0
        })
    }
}

/// How many cells of the rectangle of rows `sy..ey` and columns `sx..ex`
/// belong to `player`.
pub open spec fn count_rect(g: Seq<Seq<i8>>, player: i8, sy: int, ey: int, sx: int, ex: int) -> int
    decreases ey - sy,
{
    if ey <= sy {
        0
    } else {
        count_rect(g, player, sy, ey - 1, sx, ex) + count_row(g, player, ey - 1, sx, ex)
    }
}

/// Row `i` holds a cell of `player` between columns `sx` and `ex`.
pub open spec fn owns_in_row(g: Seq<Seq<i8>>, player: i8, i: int, sx: int, ex: int) -> bool {
    exists|j: int| sx <= j < ex && #[trigger] g[i][j] == player
}

/// Column `j` holds a cell of `player` between rows `sy` and `ey`.
pub open spec fn owns_in_col(g: Seq<Seq<i8>>, player: i8, j: int, sy: int, ey: int) -> bool {
    exists|i: int| sy <= i < ey && #[trigger] g[i][j] == player
}

/// What a player holds of the rectangle of rows `sy..ey` and columns
/// `sx..ex`.
pub open spec fn rect_infos(
    g: Seq<Seq<i8>>,
    player: i8,
    sy: int,
    sx: int,
    ey: int,
    ex: int,
) -> CardinalPointsInfos {
    CardinalPointsInfos {
        occupation: count_rect(g, player, sy, ey, sx, ex) as usize,
        top_border: sy < ey && owns_in_row(g, player, sy, sx, ex),
        bottom_border: sy < ey && owns_in_row(g, player, ey - 1, sx, ex),
        left_border: sx < ex && owns_in_col(g, player, sx, sy, ey),
        right_border: sx < ex && owns_in_col(g, player, ex - 1, sy, ey),
    }
}

proof fn lemma_count_row_bound(g: Seq<Seq<i8>>, player: i8, i: int, sx: int, ex: int)
    requires
        sx <= ex,
    ensures
        0 <= count_row(g, player, i, sx, ex) <= ex - sx,
    decreases ex - sx,
{
    if ex > sx {
        lemma_count_row_bound(g, player, i, sx, ex - 1);
    }
}

proof fn lemma_count_rect_bound(g: Seq<Seq<i8>>, player: i8, sy: int, ey: int, sx: int, ex: int)
    requires
        sy <= ey,
        sx <= ex,
    ensures
        0 <= count_rect(g, player, sy, ey, sx, ex) <= (ey - sy) * (ex - sx),
    decreases ey - sy,
{
    if ey > sy {
        lemma_count_rect_bound(g, player, sy, ey - 1, sx, ex);
        lemma_count_row_bound(g, player, ey - 1, sx, ex);
        assert((ey - 1 - sy) * (ex - sx) + (ex - sx) == (ey - sy) * (ex - sx)) by (nonlinear_arith);
    }
}

proof fn lemma_count_row_mono(g: Seq<Seq<i8>>, player: i8, i: int, sx: int, mx: int, ex: int)
    requires
        sx <= mx <= ex,
    ensures
        count_row(g, player, i, sx, mx) <= count_row(g, player, i, sx, ex),
    decreases ex - mx,
{
    if mx < ex {
        lemma_count_row_mono(g, player, i, sx, mx, ex - 1);
    }
}

proof fn lemma_count_rect_split(
    g: Seq<Seq<i8>>,
    player: i8,
    sy: int,
    my: int,
    ey: int,
    sx: int,
    ex: int,
)
    requires
        sy <= my <= ey,
    ensures
        count_rect(g, player, sy, ey, sx, ex) == count_rect(g, player, sy, my, sx, ex) + count_rect(
            g,
            player,
            my,
            ey,
            sx,
            ex,
        ),
    decreases ey - my,
{
    if my < ey {
        lemma_count_rect_split(g, player, sy, my, ey - 1, sx, ex);
    }
}

/// The cells that piece `p` covers in row `a`, left of column `b`, from
/// left to right.
pub open spec fn footprint_row(p: Seq<Seq<Option<char>>>, a: int, b: int) -> Seq<(int, int)>
    decreases b,
{
    if b <= 0 {
        seq![]
    } else {
        footprint_row(p, a, b - 1) + if covers(p, a, b - 1) {
            seq![(a, b - 1)]
        } else {
            seq![]
        }
    }
}

/// The cells that piece `p` covers in its rows above row `a`, row by row.
pub open spec fn footprint_rows(p: Seq<Seq<Option<char>>>, a: int) -> Seq<(int, int)>
    decreases a,
{
    if a <= 0 {
        seq![]
    } else {
        footprint_rows(p, a - 1) + footprint_row(p, a - 1, p.len() as int)
    }
}

/// The cells that piece `p` covers, row by row and left to right.
pub open spec fn footprint(p: Seq<Seq<Option<char>>>) -> Seq<(int, int)> {
    footprint_rows(p, p.len() as int)
}

/// The contact of the cells `cells` of a piece put at `(y, x)`, summed.
pub open spec fn sum_contact(
    g: Seq<Seq<i8>>,
    player: i8,
    y: int,
    x: int,
    cells: Seq<(int, int)>,
) -> int
    decreases cells.len(),
{
    if cells.len() == 0 {
        0
    } else {
        sum_contact(g, player, y, x, cells.drop_last()) + contact(
            g,
            player,
            y + cells.last().0,
            x + cells.last().1,
        )
    }
}

/// What putting piece `p` at `(y, x)` gives `player` on board `g`.
pub open spec fn playable(
    g: Seq<Seq<i8>>,
    p: Seq<Seq<Option<char>>>,
    y: int,
    x: int,
    player: i8,
    r: PlayableCoordinates,
) -> bool {
    let n = g.len() as int;
    &&& r.coordinates.y == y
    &&& r.coordinates.x == x
    &&& r.sq_distances@ == footprint(p).map_values(|c: (int, int)| nearest_sq(g, player, y + c.0, x + c.1))
    &&& r.contact_zone_size == sum_contact(g, player, y, x, footprint(p))
    &&& r.top_border == exists|a: int, b: int| #[trigger] covers(p, a, b) && y + a == 0
    &&& r.bottom_border == exists|a: int, b: int| #[trigger] covers(p, a, b) && y + a == n - 1
    &&& r.left_border == exists|a: int, b: int| #[trigger] covers(p, a, b) && x + b == 0
    &&& r.right_border == exists|a: int, b: int| #[trigger] covers(p, a, b) && x + b == n - 1
}

proof fn lemma_footprint_row_len(p: Seq<Seq<Option<char>>>, a: int, b: int)
    requires
        0 <= b,
    ensures
        footprint_row(p, a, b).len() <= b,
    decreases b,
{
    if b > 0 {
        lemma_footprint_row_len(p, a, b - 1);
    }
}

proof fn lemma_footprint_rows_len(p: Seq<Seq<Option<char>>>, a: int)
    requires
        0 <= a,
    ensures
        footprint_rows(p, a).len() <= a * p.len(),
    decreases a,
{
    if a > 0 {
        lemma_footprint_rows_len(p, a - 1);
        lemma_footprint_row_len(p, a - 1, p.len() as int);
        assert((a - 1) * p.len() + p.len() == a * p.len()) by (nonlinear_arith);
    }
}

/// A piece put with a mark of zero or below leaves every cell of an
/// opponent of any player as it was.
proof fn lemma_placed_keeps_opponents(
    g: Seq<Seq<i8>>,
    h: Seq<Seq<i8>>,
    p: Seq<Seq<Option<char>>>,
    y: int,
    x: int,
    v: i8,
    player: i8,
)
    requires
        is_placed(g, h, p, y, x, v),
        v <= 0,
    ensures
        forall|i: int, j: int|
            #![trigger is_opponent(g, player, i, j)]
            #![trigger is_opponent(h, player, i, j)]
            is_opponent(g, player, i, j) == is_opponent(h, player, i, j),
{
    assert forall|i: int, j: int| #[trigger] is_opponent(g, player, i, j) == is_opponent(h, player, i, j) by {
        if in_bounds(g.len() as int, i, j) {
            assert(h[i][j] == placed_cell(g, p, y, x, v, i, j));
        }
    }
}

proof fn lemma_same_opponents_sum(
    g: Seq<Seq<i8>>,
    h: Seq<Seq<i8>>,
    player: i8,
    y: int,
    x: int,
    cells: Seq<(int, int)>,
)
    requires
        forall|i: int, j: int|
            #![trigger is_opponent(g, player, i, j)]
            #![trigger is_opponent(h, player, i, j)]
            is_opponent(g, player, i, j) == is_opponent(h, player, i, j),
    ensures
        sum_contact(g, player, y, x, cells) == sum_contact(h, player, y, x, cells),
    decreases cells.len(),
{
    if cells.len() > 0 {
        lemma_same_opponents_sum(g, h, player, y, x, cells.drop_last());
        let c = cells.last();
        let (a, b) = (y + c.0, x + c.1);
        assert(is_opponent(g, player, a + 1, b) == is_opponent(h, player, a + 1, b));
        assert(is_opponent(g, player, a, b + 1) == is_opponent(h, player, a, b + 1));
        assert(is_opponent(g, player, a - 1, b) == is_opponent(h, player, a - 1, b));
        assert(is_opponent(g, player, a, b - 1) == is_opponent(h, player, a, b - 1));
        assert(is_opponent(g, player, a + 1, b + 1) == is_opponent(h, player, a + 1, b + 1));
        assert(is_opponent(g, player, a - 1, b - 1) == is_opponent(h, player, a - 1, b - 1));
        assert(is_opponent(g, player, a - 1, b + 1) == is_opponent(h, player, a - 1, b + 1));
        assert(is_opponent(g, player, a + 1, b - 1) == is_opponent(h, player, a + 1, b - 1));
    }
}

proof fn lemma_same_opponents_nearest(g: Seq<Seq<i8>>, h: Seq<Seq<i8>>, player: i8, y: int, x: int)
    requires
        forall|i: int, j: int|
            #![trigger is_opponent(g, player, i, j)]
            #![trigger is_opponent(h, player, i, j)]
            is_opponent(g, player, i, j) == is_opponent(h, player, i, j),
    ensures
        nearest_sq(g, player, y, x) == nearest_sq(h, player, y, x),
{
    assert forall|d: int| #[trigger] is_min_sq(g, player, y, x, d) == is_min_sq(h, player, y, x, d) by {
        if is_min_sq(g, player, y, x, d) {
            let (a, b) = choose|i: int, j: int| #[trigger] is_opponent(g, player, i, j) && sq_dist(i, j, y, x) == d;
            assert(is_opponent(h, player, a, b));
        }
        if is_min_sq(h, player, y, x, d) {
            let (a, b) = choose|i: int, j: int| #[trigger] is_opponent(h, player, i, j) && sq_dist(i, j, y, x) == d;
            assert(is_opponent(g, player, a, b));
        }
    }
    if has_opponent(g, player) {
        let (i0, j0) = choose|i: int, j: int| #[trigger] is_opponent(g, player, i, j);
        assert(is_opponent(h, player, i0, j0));
        lemma_min_sq_exists(g, player, y, x, sq_dist(i0, j0, y, x) as nat);
        let dg = choose|d: int| is_min_sq(g, player, y, x, d);
        let dh = choose|d: int| is_min_sq(h, player, y, x, d);
        assert(is_min_sq(h, player, y, x, dg));
        let (a, b) = choose|i: int, j: int| #[trigger] is_opponent(h, player, i, j) && sq_dist(i, j, y, x) == dh;
        let (c, e) = choose|i: int, j: int| #[trigger] is_opponent(h, player, i, j) && sq_dist(i, j, y, x) == dg;
        assert(dg <= sq_dist(a, b, y, x));
        assert(dh <= sq_dist(c, e, y, x));
    }
    if has_opponent(h, player) {
        let (i0, j0) = choose|i: int, j: int| #[trigger] is_opponent(h, player, i, j);
        assert(is_opponent(g, player, i0, j0));
    }
}

/// When some opponent's cell lies within squared distance `bound` of
/// `(y, x)`, a nearest one exists.
proof fn lemma_min_sq_exists(g: Seq<Seq<i8>>, player: i8, y: int, x: int, bound: nat)
    requires
        exists|i: int, j: int| #[trigger] is_opponent(g, player, i, j) && sq_dist(i, j, y, x) <= bound,
    ensures
        exists|d: int| is_min_sq(g, player, y, x, d),
    decreases bound,
{
    let (i0, j0) = choose|i: int, j: int| #[trigger] is_opponent(g, player, i, j) && sq_dist(i, j, y, x) <= bound;
    assert(sq_dist(i0, j0, y, x) >= 0) by (nonlinear_arith);
    if exists|i: int, j: int| #[trigger] is_opponent(g, player, i, j) && sq_dist(i, j, y, x) < bound {
        let (i1, j1) = choose|i: int, j: int| #[trigger] is_opponent(g, player, i, j) && sq_dist(i, j, y, x) < bound;
        assert(sq_dist(i1, j1, y, x) >= 0) by (nonlinear_arith);
        lemma_min_sq_exists(g, player, y, x, (bound - 1) as nat);
    } else {
        assert(is_min_sq(g, player, y, x, sq_dist(i0, j0, y, x)));
    }
}

/// A piece tried on the board with a mark of zero or below changes nothing
/// of what any placement gives any player: the distances, the contact and
/// the borders are those of the board without it.
pub proof fn lemma_trial_keeps_playable(
    g: Seq<Seq<i8>>,
    h: Seq<Seq<i8>>,
    p: Seq<Seq<Option<char>>>,
    y: int,
    x: int,
    v: i8,
    q: Seq<Seq<Option<char>>>,
    py: int,
    px: int,
    player: i8,
    r: PlayableCoordinates,
)
    requires
        is_placed(g, h, p, y, x, v),
        v <= 0,
    ensures
        playable(h, q, py, px, player, r) == playable(g, q, py, px, player, r),
{
    lemma_placed_keeps_opponents(g, h, p, y, x, v, player);
    lemma_same_opponents_sum(g, h, player, py, px, footprint(q));
    let f = footprint(q);
    assert forall|k: int| 0 <= k < f.len() implies nearest_sq(g, player, py + f[k].0, px + f[k].1) == nearest_sq(
        h,
        player,
        py + f[k].0,
        px + f[k].1,
    ) by {
        lemma_same_opponents_nearest(g, h, player, py + f[k].0, px + f[k].1);
    }
    assert(f.map_values(|c: (int, int)| nearest_sq(g, player, py + c.0, px + c.1)) =~= f.map_values(
        |c: (int, int)| nearest_sq(h, player, py + c.0, px + c.1),
    ));
}

/// Grid `g` with piece `p` put at `(y, x)` with mark `v`.
pub open spec fn place(g: Seq<Seq<i8>>, p: Seq<Seq<Option<char>>>, y: int, x: int, v: i8) -> Seq<
    Seq<i8>,
> {
    Seq::new(g.len(), |i: int| Seq::new(g[i].len(), |j: int| placed_cell(g, p, y, x, v, i, j)))
}

/// On a square grid, the grid that `is_placed` describes is `place`.
pub proof fn lemma_is_placed_place(
    g: Seq<Seq<i8>>,
    h: Seq<Seq<i8>>,
    p: Seq<Seq<Option<char>>>,
    y: int,
    x: int,
    v: i8,
)
    requires
        is_square(g),
        is_placed(g, h, p, y, x, v),
    ensures
        h == place(g, p, y, x, v),
        is_square(h),
{
    let q = place(g, p, y, x, v);
    assert forall|i: int| 0 <= i < g.len() implies #[trigger] h[i] =~= q[i] by {
        assert(g[i].len() == g.len());
        assert forall|j: int| 0 <= j < g[i].len() implies h[i][j] == q[i][j] by {
            assert(in_bounds(g.len() as int, i, j));
        }
    }
    assert(h =~= q);
    assert forall|i: int| 0 <= i < h.len() implies #[trigger] h[i].len() == h.len() by {
        assert(g[i].len() == g.len());
    }
}

/// `g` is an empty board of side `g.len()` but for the first player on
/// `(y, x)` and the second across from it (the second wins the cell when
/// the two are the same).
pub open spec fn is_valid_start(g: Seq<Seq<i8>>, y: int, x: int) -> bool {
    let n = g.len() as int;
    &&& is_square(g)
    &&& forall|i: int, j: int|
        in_bounds(n, i, j) ==> #[trigger] g[i][j] == if i == mirror(n, y) && j == mirror(n, x) {
            2i8
        } else if i == y && j == x {
            1i8
        } else {
            0i8
        }
}

/// How a row of the board is written: its cells' numbers side by side.
pub open spec fn row_text(r: Seq<i8>) -> Seq<char>
    decreases r.len(),
{
    if r.len() == 0 {
        seq![]
    } else {
        row_text(r.drop_last()) + number_text(r.last())
    }
}

/// How the board is written: each row on a line of its own.
pub open spec fn board_text(g: Seq<Seq<i8>>) -> Seq<char>
    decreases g.len(),
{
    if g.len() == 0 {
        seq![]
    } else {
        board_text(g.drop_last()) + row_text(g.last()) + seq!['\n']
    }
}

/// Putting a piece never takes a cell that a player owns: every cell that
/// holds a positive number keeps it.
pub proof fn lemma_owned_cells_kept(
    g: Seq<Seq<i8>>,
    h: Seq<Seq<i8>>,
    p: Seq<Seq<Option<char>>>,
    y: int,
    x: int,
    v: i8,
)
    requires
        is_placed(g, h, p, y, x, v),
    ensures
        forall|i: int, j: int| in_bounds(g.len() as int, i, j) && g[i][j] > 0 ==> #[trigger] h[i][j] == g[i][j],
{
    assert forall|i: int, j: int| in_bounds(g.len() as int, i, j) && g[i][j] > 0 implies #[trigger] h[i][j]
        == g[i][j] by {
        assert(h[i][j] == placed_cell(g, p, y, x, v, i, j));
    }
}

/// A piece put where it may go for a positive `player`, with that
/// player's number, leaves every cell it covers to that player.
pub proof fn lemma_valid_placement_covers(
    g: Seq<Seq<i8>>,
    h: Seq<Seq<i8>>,
    p: Seq<Seq<Option<char>>>,
    y: int,
    x: int,
    player: i8,
)
    requires
        player > 0,
        fits(g, p, y, x, player),
        is_placed(g, h, p, y, x, player),
    ensures
        forall|a: int, b: int| #[trigger] covers(p, a, b) ==> h[y + a][x + b] == player,
{
    assert forall|a: int, b: int| #[trigger] covers(p, a, b) implies h[y + a][x + b] == player by {
        assert(valid_box(g, y + a, x + b, player));
        assert(h[y + a][x + b] == placed_cell(g, p, y, x, player, y + a, x + b));
    }
}

impl Board {
    /// The board has `size` rows of `size` cells, all of which fit in memory
    /// at once.
    pub open spec fn wf(&self) -> bool {
        &&& self@.len() == self.size
        &&& forall|i: int| 0 <= i < self.size ==> #[trigger] self@[i].len() == self.size
        &&& self.size * self.size <= usize::MAX
    }

    /// A well-formed board is square.
    pub proof fn lemma_square(&self)
        requires
            self.wf(),
        ensures
            is_square(self@),
            self.size <= isize::MAX,
    {
        lemma_side_fits(self.size as int);
    }

    proof fn lemma_row(&self, i: int)
        requires
            self.wf(),
            0 <= i < self.size,
        ensures
            self.board@[i]@.len() == self.size,
            self.size <= isize::MAX,
    {
        assert(self@[i].len() == self.size);
        lemma_side_fits(self.size as int);
    }

    /// An empty board of the given size.
    pub fn new(size: usize) -> (b: Self)
        requires
            size * size <= usize::MAX,
        ensures
            b.wf(),
            b.size == size,
            forall|i: int, j: int| 0 <= i < size && 0 <= j < size ==> b@[i][j] == 0,
    {
        let mut board: Vec<Vec<i8>> = Vec::new();
        for i in 0..size
            invariant
                board@.len() == i,
                forall|k: int| 0 <= k < i ==> #[trigger] board@[k]@.len() == size,
                forall|k: int, j: int| 0 <= k < i && 0 <= j < size ==> board@[k]@[j] == 0,
        {
            let mut row: Vec<i8> = Vec::new();
            for j in 0..size
                invariant
                    row@.len() == j,
                    forall|l: int| 0 <= l < j ==> row@[l] == 0,
            {
                row.push(0);
            }
            board.push(row);
        }
        Board { size, board }
    }

    /// Writes `v` in cell `(y, x)`.
    fn set_cell(&mut self, y: usize, x: usize, v: i8)
        requires
            old(self).wf(),
            y < old(self).size,
            x < old(self).size,
        ensures
            final(self).wf(),
            final(self).size == old(self).size,
            final(self)@ == old(self)@.update(y as int, old(self)@[y as int].update(x as int, v)),
    {
        proof {
            self.lemma_row(y as int);
        }
        self.board[y][x] = v;
        assert(self@ =~= old(self)@.update(y as int, old(self)@[y as int].update(x as int, v)));
    }

    /// Whether a piece may cover cell `(y, x)` for `player`.
    fn is_valid_box(&self, y: isize, x: isize, player: i8) -> (r: bool)
        requires
            self.wf(),
        ensures
            r == valid_box(self@, y as int, x as int, player),
    {
        proof {
            lemma_side_fits(self.size as int);
        }
        if y >= 0 && x >= 0 && y < self.size as isize && x < self.size as isize {
            proof {
                self.lemma_row(y as int);
            }
            let c = self.board[y as usize][x as usize];
            c == 0 || c == player
        } else {
            false
        }
    }

    /// Whether `piece`, with its frame's corner at `(y, x)`, may be put on
    /// the board for `player` (see `valid_piece_coord`).
    #[verifier::spinoff_prover]
    #[verifier::rlimit(40)]
    pub fn is_valid_piece_coord(&self, piece: &Piece, y: isize, x: isize, player: i8) -> (r: bool)
        requires
            self.wf(),
            piece.wf(),
            coords_fit(piece@, y as int, x as int),
        ensures
            r == valid_piece_coord(self@, piece@, y as int, x as int, player),
    {
        let ghost g = self@;
        let ghost p = piece@;
        let m = piece.size;
        proof {
            lemma_side_fits(m as int);
        }
        // How many cells of the piece land on the player's own, counted up to two.
        let mut neighbor_cnt: u8 = 0;
        let ghost mut first: (int, int) = (0, 0);
        let ghost mut second: (int, int) = (0, 0);
        for py in 0..m
            invariant
                g == self@,
                p == piece@,
                m == piece.size,
                m <= isize::MAX,
                piece.wf(),
                self.wf(),
                coords_fit(p, y as int, x as int),
                neighbor_cnt <= 2,
                forall|a: int, b: int|
                    #[trigger] covers(p, a, b) && a < py ==> valid_box(g, y + a, x + b, player),
                neighbor_cnt == 0 ==> forall|a: int, b: int|
                    #[trigger] covers(p, a, b) && a < py ==> g[y + a][x + b] != player,
                neighbor_cnt >= 1 ==> covers(p, first.0, first.1) && first.0 < py && g[y
                    + first.0][x + first.1] == player,
                neighbor_cnt == 1 ==> forall|a: int, b: int|
                    #[trigger] covers(p, a, b) && a < py && (a != first.0 || b != first.1) ==> g[y
                        + a][x + b] != player,
                neighbor_cnt == 2 ==> covers(p, second.0, second.1) && second.0 < py && g[y
                    + second.0][x + second.1] == player && second != first,
        {
            proof {
                assert(p[py as int].len() == m);
            }
            for px in 0..m
                invariant
                    g == self@,
                    p == piece@,
                    m == piece.size,
                    m <= isize::MAX,
                    piece.wf(),
                    self.wf(),
                    py < m,
                    p[py as int].len() == m,
                    coords_fit(p, y as int, x as int),
                    neighbor_cnt <= 2,
                    forall|a: int, b: int|
                        #[trigger] covers(p, a, b) && (a < py || (a == py && b < px)) ==> valid_box(
                            g,
                            y + a,
                            x + b,
                            player,
                        ),
                    neighbor_cnt == 0 ==> forall|a: int, b: int|
                        #[trigger] covers(p, a, b) && (a < py || (a == py && b < px)) ==> g[y
                            + a][x + b] != player,
                    neighbor_cnt >= 1 ==> covers(p, first.0, first.1) && (first.0 < py || (first.0
                        == py && first.1 < px)) && g[y + first.0][x + first.1] == player,
                    neighbor_cnt == 1 ==> forall|a: int, b: int|
                        #[trigger] covers(p, a, b) && (a < py || (a == py && b < px)) && (a
                            != first.0 || b != first.1) ==> g[y + a][x + b] != player,
                    neighbor_cnt == 2 ==> covers(p, second.0, second.1) && (second.0 < py || (
                    second.0 == py && second.1 < px)) && g[y + second.0][x + second.1] == player
                        && second != first,
            {
                if piece.piece[py][px].is_some() {
                    proof {
                        assert(covers(p, py as int, px as int));
                    }
                    let cy = y + py as isize;
                    let cx = x + px as isize;
                    if !self.is_valid_box(cy, cx, player) {
                        assert(covers(p, py as int, px as int));
                        return false;
                    }
                    proof {
                        self.lemma_row(cy as int);
                    }
                    if self.board[cy as usize][cx as usize] == player {
                        proof {
                            if neighbor_cnt == 0 {
                                first = (py as int, px as int);
                            } else if neighbor_cnt == 1 {
                                second = (py as int, px as int);
                            }
                        }
                        if neighbor_cnt < 2 {
                            neighbor_cnt = neighbor_cnt + 1;
                        }
                    }
                }
            }
        }
        proof {
            if neighbor_cnt == 1 {
                assert(touches_once(g, p, y as int, x as int, player)) by {
                    assert(covers(p, first.0, first.1));
                }
            } else if neighbor_cnt == 0 {
                assert(!touches_once(g, p, y as int, x as int, player));
            } else {
                assert forall|a: int, b: int|
                    #![trigger covers(p, a, b)]
                    covers(p, a, b) && g[y + a][x + b] == player implies exists|c: int, d: int|
                    #![trigger covers(p, c, d)]
                    covers(p, c, d) && (c != a || d != b) && g[y + c][x + d] == player by {
                    if a == first.0 && b == first.1 {
                        assert(covers(p, second.0, second.1));
                    } else {
                        assert(covers(p, first.0, first.1));
                    }
                }
                assert(!touches_once(g, p, y as int, x as int, player));
            }
        }
        neighbor_cnt == 1
    }

    /// Puts `piece` with its frame's corner at `(y, x)`: each cell that the
    /// piece covers and that holds zero or less takes `player`; cells the
    /// piece covers that hold a player's number keep it.
    pub fn set_piece(&mut self, piece: &Piece, y: isize, x: isize, player: i8) -> (r: bool)
        requires
            old(self).wf(),
            piece.wf(),
            on_board(old(self)@, piece@, y as int, x as int),
        ensures
            final(self).wf(),
            final(self).size == old(self).size,
            is_placed(old(self)@, final(self)@, piece@, y as int, x as int, player),
            r,
    {
        let ghost g = self@;
        let ghost p = piece@;
        let ghost n = self.size as int;
        let m = piece.size;
        proof {
            lemma_side_fits(m as int);
            lemma_side_fits(n);
        }
        for py in 0..m
            invariant
                p == piece@,
                m == piece.size,
                m <= isize::MAX,
                piece.wf(),
                self.wf(),
                self.size == n,
                g.len() == n,
                on_board(g, p, y as int, x as int),
                forall|i: int, j: int|
                    #![trigger self@[i][j]]
                    in_bounds(n, i, j) ==> self@[i][j] == (if i - y < py {
                        placed_cell(g, p, y as int, x as int, player, i, j)
                    } else {
                        g[i][j]
                    }),
        {
            proof {
                assert(p[py as int].len() == m);
            }
            for px in 0..m
                invariant
                    p == piece@,
                    m == piece.size,
                    m <= isize::MAX,
                    piece.wf(),
                    self.wf(),
                    self.size == n,
                    g.len() == n,
                    py < m,
                    p[py as int].len() == m,
                    on_board(g, p, y as int, x as int),
                    forall|i: int, j: int|
                        #![trigger self@[i][j]]
                        in_bounds(n, i, j) ==> self@[i][j] == (if i - y < py || (i - y == py && j
                            - x < px) {
                            placed_cell(g, p, y as int, x as int, player, i, j)
                        } else {
                            g[i][j]
                        }),
            {
                if piece.piece[py][px].is_some() {
                    proof {
                        assert(covers(p, py as int, px as int));
                        lemma_side_fits(n);
                    }
                    let cy = (y + py as isize) as usize;
                    let cx = (x + px as isize) as usize;
                    proof {
                        self.lemma_row(cy as int);
                    }
                    if self.board[cy][cx] <= 0 {
                        self.set_cell(cy, cx, player);
                    }
                }
            }
        }
        true
    }

    /// Gives the first player the cell `(y, x)` and the second player the
    /// cell across from it.
    pub fn set_start_position(&mut self, y: usize, x: usize)
        requires
            old(self).wf(),
            y < old(self).size,
            x < old(self).size,
        ensures
            final(self).wf(),
            final(self).size == old(self).size,
            final(self)@.len() == old(self)@.len(),
            forall|i: int| 0 <= i < old(self).size ==> #[trigger] final(self)@[i].len() == old(self).size,
            forall|i: int, j: int|
                in_bounds(old(self).size as int, i, j) ==> #[trigger] final(self)@[i][j] == if i == mirror(
                    old(self).size as int,
                    y as int,
                ) && j == mirror(old(self).size as int, x as int) {
                    2i8
                } else if i == y && j == x {
                    1i8
                } else {
                    old(self)@[i][j]
                },
    {
        self.set_cell(y, x, 1);
        let y2 = if y > 0 {
            self.size - y
        } else {
            self.size - 1
        };
        let x2 = if x > 0 {
            self.size - x
        } else {
            self.size - 1
        };
        self.set_cell(y2, x2, 2);
    }

    /// Whether `(i, j)` holds an opponent's cell.
    fn is_opponent_cell(&self, i: usize, j: usize, player: i8) -> (r: bool)
        requires
            self.wf(),
            i < self.size,
            j < self.size,
        ensures
            r == is_opponent(self@, player, i as int, j as int),
    {
        proof {
            self.lemma_row(i as int);
        }
        let c = self.board[i][j];
        c != player && c > 0
    }

    /// How many of the eight cells around `(y, x)` belong to an opponent of
    /// `player`.
    fn compute_contact_zone_size(&self, y: usize, x: usize, player: i8) -> (r: u32)
        requires
            self.wf(),
            y < self.size,
            x < self.size,
        ensures
            r == contact(self@, player, y as int, x as int),
            r <= 8,
    {
        proof {
            lemma_side_fits(self.size as int);
        }
        let n = self.size;
        let mut res: u32 = 0;
        if y + 1 < n && self.is_opponent_cell(y + 1, x, player) {
            res += 1;
        }
        if x + 1 < n && self.is_opponent_cell(y, x + 1, player) {
            res += 1;
        }
        if y > 0 && self.is_opponent_cell(y - 1, x, player) {
            res += 1;
        }
        if x > 0 && self.is_opponent_cell(y, x - 1, player) {
            res += 1;
        }
        if y + 1 < n && x + 1 < n && self.is_opponent_cell(y + 1, x + 1, player) {
            res += 1;
        }
        if y > 0 && x > 0 && self.is_opponent_cell(y - 1, x - 1, player) {
            res += 1;
        }
        if y > 0 && x + 1 < n && self.is_opponent_cell(y - 1, x + 1, player) {
            res += 1;
        }
        if y + 1 < n && x > 0 && self.is_opponent_cell(y + 1, x - 1, player) {
            res += 1;
        }
        res
    }

    /// The squared distance from `(y, x)` to the nearest cell of an opponent
    /// of `player`, or `None` when the opponents own no cell.
    fn compute_smallest_sq_dist(&self, y: usize, x: usize, player: i8) -> (r: Option<u128>)
        requires
            self.wf(),
            y < self.size,
            x < self.size,
        ensures
            r == nearest_sq(self@, player, y as int, x as int),
    {
        let ghost g = self@;
        let n = self.size;
        proof {
            lemma_side_fits(n as int);
        }
        let mut best: Option<u128> = None;
        for by in 0..n
            invariant
                g == self@,
                n == self.size,
                self.wf(),
                y < n,
                x < n,
                best is None ==> forall|i: int, j: int|
                    #[trigger] is_opponent(g, player, i, j) && i < by ==> false,
                best matches Some(d) ==> (exists|i: int, j: int|
                    #[trigger] is_opponent(g, player, i, j) && i < by && sq_dist(i, j, y as int, x as int)
                        == d) && (forall|i: int, j: int|
                    #[trigger] is_opponent(g, player, i, j) && i < by ==> d <= sq_dist(i, j, y as int, x as int)),
        {
            for bx in 0..n
                invariant
                    g == self@,
                    n == self.size,
                    self.wf(),
                    y < n,
                    x < n,
                    by < n,
                    best is None ==> forall|i: int, j: int|
                        #[trigger] is_opponent(g, player, i, j) && (i < by || (i == by && j < bx)) ==> false,
                    best matches Some(d) ==> (exists|i: int, j: int|
                        #[trigger] is_opponent(g, player, i, j) && (i < by || (i == by && j < bx))
                            && sq_dist(i, j, y as int, x as int) == d) && (forall|i: int, j: int|
                        #[trigger] is_opponent(g, player, i, j) && (i < by || (i == by && j < bx)) ==> d
                            <= sq_dist(i, j, y as int, x as int)),
            {
                if self.is_opponent_cell(by, bx, player) {
                    let dy: u128 = if by >= y {
                        (by - y) as u128
                    } else {
                        (y - by) as u128
                    };
                    let dx: u128 = if bx >= x {
                        (bx - x) as u128
                    } else {
                        (x - bx) as u128
                    };
                    proof {
                        assert(dy * dy <= (n as int) * (n as int)) by (nonlinear_arith)
                            requires
                                dy < n,
                        ;
                        assert(dx * dx <= (n as int) * (n as int)) by (nonlinear_arith)
                            requires
                                dx < n,
                        ;
                        assert(dy * dy == (by - y) * (by - y)) by (nonlinear_arith)
                            requires
                                dy == by - y || dy == y - by,
                        ;
                        assert(dx * dx == (bx - x) * (bx - x)) by (nonlinear_arith)
                            requires
                                dx == bx - x || dx == x - bx,
                        ;
                    }
                    let d = dy * dy + dx * dx;
                    assert(d == sq_dist(by as int, bx as int, y as int, x as int));
                    match best {
                        None => {
                            best = Some(d);
                        },
                        Some(b) => {
                            if d < b {
                                best = Some(d);
                            }
                        },
                    }
                }
            }
        }
        proof {
            if let Some(d) = best {
                assert(is_min_sq(g, player, y as int, x as int, d as int));
                assert(has_opponent(g, player));
                let c = choose|c: int| is_min_sq(g, player, y as int, x as int, c);
                assert(c == d);
            } else {
                assert(!has_opponent(g, player));
            }
        }
        best
    }

    /// Whether a cell of `player` has a cell of `opponent` right of it,
    /// below it, or below and right of it.
    fn is_fight_started(&self, player: i8, opponent: i8) -> (r: bool)
        requires
            self.wf(),
        ensures
            r == exists|i: int, j: int| #[trigger] fight_at(self@, player, opponent, i, j),
    {
        let ghost g = self@;
        let n = self.size;
        proof {
            lemma_side_fits(n as int);
        }
        for y in 0..n
            invariant
                g == self@,
                n == self.size,
                self.wf(),
                forall|i: int, j: int| #[trigger] fight_at(g, player, opponent, i, j) ==> i >= y,
        {
            proof {
                self.lemma_row(y as int);
            }
            for x in 0..n
                invariant
                    g == self@,
                    n == self.size,
                    self.wf(),
                    y < n,
                    self.board@[y as int]@.len() == n,
                    forall|i: int, j: int|
                        #[trigger] fight_at(g, player, opponent, i, j) ==> i > y || (i == y && j
                            >= x),
            {
                if self.board[y][x] == player {
                    let mut hit = false;
                    if x + 1 < n && y + 1 < n {
                        proof {
                            self.lemma_row(y as int + 1);
                        }
                        if self.board[y + 1][x + 1] == opponent {
                            hit = true;
                        }
                    }
                    if !hit && x + 1 < n && self.board[y][x + 1] == opponent {
                        hit = true;
                    }
                    if !hit && y + 1 < n {
                        proof {
                            self.lemma_row(y as int + 1);
                        }
                        if self.board[y + 1][x] == opponent {
                            hit = true;
                        }
                    }
                    if hit {
                        assert(fight_at(g, player, opponent, y as int, x as int));
                        return true;
                    }
                }
            }
        }
        false
    }

    /// What `player` holds of the rectangle of rows `start_y..end_y` and
    /// columns `start_x..end_x`.
    fn compute_cardinal_points_infos(
        &self,
        player: i8,
        start_y: usize,
        start_x: usize,
        end_y: usize,
        end_x: usize,
    ) -> (r: CardinalPointsInfos)
        requires
            self.wf(),
            start_y <= end_y <= self.size,
            start_x <= end_x <= self.size,
        ensures
            r == rect_infos(self@, player, start_y as int, start_x as int, end_y as int, end_x as int),
    {
        let ghost g = self@;
        let mut occupation: usize = 0;
        let mut top_border = false;
        let mut bottom_border = false;
        let mut left_border = false;
        let mut right_border = false;
        proof {
            lemma_count_rect_bound(g, player, start_y as int, end_y as int, start_x as int, end_x as int);
            assert((end_y - start_y) * (end_x - start_x) <= self.size * self.size) by (nonlinear_arith)
                requires
                    end_y - start_y <= self.size,
                    end_x - start_x <= self.size,
                    start_y <= end_y,
                    start_x <= end_x,
            ;
        }
        for y in start_y..end_y
            invariant
                g == self@,
                self.wf(),
                start_y <= y <= end_y <= self.size,
                start_x <= end_x <= self.size,
                count_rect(g, player, start_y as int, end_y as int, start_x as int, end_x as int)
                    <= usize::MAX,
                occupation == count_rect(g, player, start_y as int, y as int, start_x as int, end_x as int),
                top_border == (start_y < y && owns_in_row(g, player, start_y as int, start_x as int, end_x as int)),
                bottom_border == (exists|i: int| start_y <= i < y && i == end_y - 1 && owns_in_row(g, player, i, start_x as int, end_x as int)),
                left_border == (start_x < end_x && owns_in_col(g, player, start_x as int, start_y as int, y as int)),
                right_border == (start_x < end_x && owns_in_col(g, player, end_x - 1, start_y as int, y as int)),
        {
            proof {
                self.lemma_row(y as int);
                lemma_count_rect_bound(g, player, y + 1, end_y as int, start_x as int, end_x as int);
                lemma_count_rect_split(g, player, start_y as int, y + 1, end_y as int, start_x as int, end_x as int);
            }
            let ghost row_start = occupation;
            for x in start_x..end_x
                invariant
                    g == self@,
                    self.wf(),
                    start_y <= y < end_y <= self.size,
                    start_x <= x <= end_x <= self.size,
                    self.board@[y as int]@.len() == self.size,
                    row_start == count_rect(g, player, start_y as int, y as int, start_x as int, end_x as int),
                    row_start + count_row(g, player, y as int, start_x as int, end_x as int) <= usize::MAX,
                    occupation == row_start + count_row(g, player, y as int, start_x as int, x as int),
                    top_border == (start_y < y && owns_in_row(g, player, start_y as int, start_x as int, end_x as int)
                        || y == start_y && owns_in_row(g, player, y as int, start_x as int, x as int)),
                    bottom_border == ((exists|i: int| start_y <= i < y && i == end_y - 1 && owns_in_row(g, player, i, start_x as int, end_x as int))
                        || y == end_y - 1 && owns_in_row(g, player, y as int, start_x as int, x as int)),
                    left_border == (start_x < end_x && owns_in_col(g, player, start_x as int, start_y as int, y as int)
                        || start_x < x && g[y as int][start_x as int] == player),
                    right_border == (start_x < end_x && owns_in_col(g, player, end_x - 1, start_y as int, y as int)
                        || start_x < end_x && x == end_x && g[y as int][end_x - 1] == player),
            {
                proof {
                    lemma_count_row_mono(g, player, y as int, start_x as int, x + 1, end_x as int);
                }
                if self.board[y][x] == player {
                    occupation = occupation + 1;
                    if y == start_y {
                        top_border = true;
                    }
                    if y == end_y - 1 {
                        bottom_border = true;
                    }
                    if x == start_x {
                        left_border = true;
                    }
                    if x == end_x - 1 {
                        right_border = true;
                    }
                }
            }
        }
        CardinalPointsInfos { occupation, top_border, bottom_border, left_border, right_border }
    }

    /// What each of `ply` and `opt` holds of each region of the board, and
    /// whether a cell of `ply` touches one of `opt`.
    pub fn compute_board_infos(&self, ply: i8, opt: i8) -> (r: BoardInfos)
        requires
            self.wf(),
        ensures
            describes_board(self@, ply, opt, r),
    {
        let player = self.regions_of(ply);
        let opponent = self.regions_of(opt);
        BoardInfos { fight_started: self.is_fight_started(ply, opt), player, opponent }
    }

    fn regions_of(&self, who: i8) -> (r: Vec<(CardinalPoints, CardinalPointsInfos)>)
        requires
            self.wf(),
        ensures
            regions_infos(self@, who, r@),
    {
        let n = self.size;
        let t = n / 3;
        let mut r: Vec<(CardinalPoints, CardinalPointsInfos)> = Vec::new();
        for k in 0..9usize
            invariant
                n == self.size,
                t == n / 3,
                self.wf(),
                r@.len() == k,
                forall|l: int|
                    0 <= l < k ==> {
                        let (name, sy, sx, ey, ex) = region(l, n as int);
                        &&& (#[trigger] r@[l]).0 == name
                        &&& r@[l].1 == rect_infos(self@, who, sy, sx, ey, ex)
                    },
        {
            let (name, sy, sx, ey, ex) = if k == 0 {
                (CardinalPoints::North, 0, t, t, 2 * t)
            } else if k == 1 {
                (CardinalPoints::South, 2 * t, t, n, 2 * t)
            } else if k == 2 {
                (CardinalPoints::East, t, 2 * t, 2 * t, n)
            } else if k == 3 {
                (CardinalPoints::West, t, 0, 2 * t, t)
            } else if k == 4 {
                (CardinalPoints::NorthEast, 0, 2 * t, t, n)
            } else if k == 5 {
                (CardinalPoints::NorthWest, 0, 0, t, t)
            } else if k == 6 {
                (CardinalPoints::SouthEast, 2 * t, 2 * t, n, n)
            } else if k == 7 {
                (CardinalPoints::SouthWest, 2 * t, 0, n, t)
            } else {
                (CardinalPoints::Center, t, t, 2 * t, 2 * t)
            };
            let infos = self.compute_cardinal_points_infos(who, sy, sx, ey, ex);
            r.push((name, infos));
        }
        r
    }

    /// What putting `piece` at `(y, x)` gives `player`: for each cell of the
    /// piece, the squared distance to the nearest opponent's cell and the
    /// number of opponent's cells around it, and which edges of the board
    /// the piece touches.
    pub fn compute_playable_coordinates(&self, piece: &Piece, y: isize, x: isize, player: i8) -> (r:
        PlayableCoordinates)
        requires
            self.wf(),
            piece.wf(),
            on_board(self@, piece@, y as int, x as int),
        ensures
            playable(self@, piece@, y as int, x as int, player, r),
    {
        let ghost g = self@;
        let ghost p = piece@;
        let ghost n = self.size as int;
        let m = piece.size;
        let mut sq_distances: Vec<Option<u128>> = Vec::new();
        let mut contact_zone_size: u128 = 0;
        let mut top_border = false;
        let mut bottom_border = false;
        let mut left_border = false;
        let mut right_border = false;
        proof {
            lemma_side_fits(m as int);
            lemma_side_fits(n);
        }
        for py in 0..m
            invariant
                g == self@,
                p == piece@,
                m == piece.size,
                m <= isize::MAX,
                n <= isize::MAX,
                piece.wf(),
                self.wf(),
                self.size == n,
                on_board(g, p, y as int, x as int),
                sq_distances@ == footprint_rows(p, py as int).map_values(
                    |c: (int, int)| nearest_sq(g, player, y + c.0, x + c.1),
                ),
                contact_zone_size == sum_contact(g, player, y as int, x as int, footprint_rows(p, py as int)),
                contact_zone_size <= 8 * footprint_rows(p, py as int).len(),
                top_border == exists|a: int, b: int| #[trigger] covers(p, a, b) && a < py && y + a == 0,
                bottom_border == exists|a: int, b: int|
                    #[trigger] covers(p, a, b) && a < py && y + a == n - 1,
                left_border == exists|a: int, b: int| #[trigger] covers(p, a, b) && a < py && x + b == 0,
                right_border == exists|a: int, b: int|
                    #[trigger] covers(p, a, b) && a < py && x + b == n - 1,
        {
            proof {
                assert(p[py as int].len() == m);
            }
            for px in 0..m
                invariant
                    g == self@,
                    p == piece@,
                    m == piece.size,
                    m <= isize::MAX,
                    n <= isize::MAX,
                    piece.wf(),
                    self.wf(),
                    self.size == n,
                    py < m,
                    p[py as int].len() == m,
                    on_board(g, p, y as int, x as int),
                    sq_distances@ == (footprint_rows(p, py as int) + footprint_row(p, py as int, px as int)).map_values(
                        |c: (int, int)| nearest_sq(g, player, y + c.0, x + c.1),
                    ),
                    contact_zone_size == sum_contact(
                        g,
                        player,
                        y as int,
                        x as int,
                        footprint_rows(p, py as int) + footprint_row(p, py as int, px as int),
                    ),
                    contact_zone_size <= 8 * (footprint_rows(p, py as int) + footprint_row(p, py as int, px as int)).len(),
                    top_border == exists|a: int, b: int|
                        #[trigger] covers(p, a, b) && (a < py || (a == py && b < px)) && y + a == 0,
                    bottom_border == exists|a: int, b: int|
                        #[trigger] covers(p, a, b) && (a < py || (a == py && b < px)) && y + a == n - 1,
                    left_border == exists|a: int, b: int|
                        #[trigger] covers(p, a, b) && (a < py || (a == py && b < px)) && x + b == 0,
                    right_border == exists|a: int, b: int|
                        #[trigger] covers(p, a, b) && (a < py || (a == py && b < px)) && x + b == n - 1,
            {
                let ghost before = footprint_rows(p, py as int) + footprint_row(p, py as int, px as int);
                proof {
                    lemma_footprint_rows_len(p, py as int);
                    lemma_footprint_row_len(p, py as int, px as int);
                    assert(py * m + px < m * m) by (nonlinear_arith)
                        requires
                            py < m,
                            px < m,
                    ;
                    assert(footprint_rows(p, py as int).len() <= py * m) by {
                        assert(p.len() == m);
                    }
                }
                if piece.piece[py][px].is_some() {
                    proof {
                        assert(covers(p, py as int, px as int));
                    }
                    let by = (y + py as isize) as usize;
                    let bx = (x + px as isize) as usize;
                    let d = self.compute_smallest_sq_dist(by, bx, player);
                    let c = self.compute_contact_zone_size(by, bx, player);
                    let ghost after = before.push((py as int, px as int));
                    proof {
                        assert(footprint_rows(p, py as int) + footprint_row(p, py as int, px + 1) =~= after);
                        assert(after.drop_last() =~= before);
                    }
                    sq_distances.push(d);
                    contact_zone_size = contact_zone_size + c as u128;
                    if !top_border && by == 0 {
                        top_border = true;
                    }
                    if !bottom_border && by == self.size - 1 {
                        bottom_border = true;
                    }
                    if !left_border && bx == 0 {
                        left_border = true;
                    }
                    if !right_border && bx == self.size - 1 {
                        right_border = true;
                    }
                    proof {
                        assert(sq_distances@ =~= after.map_values(
                            |c: (int, int)| nearest_sq(g, player, y + c.0, x + c.1),
                        ));
                    }
                } else {
                    proof {
                        assert(footprint_rows(p, py as int) + footprint_row(p, py as int, px + 1) =~= before);
                    }
                }
            }
            proof {
                assert(footprint_rows(p, py + 1) =~= footprint_rows(p, py as int) + footprint_row(p, py as int, m as int));
            }
        }
        PlayableCoordinates {
            coordinates: Position { y, x },
            sq_distances,
            contact_zone_size,
            top_border,
            bottom_border,
            left_border,
            right_border,
        }
    }

    /// The board as text: each row on a line of its own, its cells'
    /// numbers side by side.
    pub fn render(&self) -> (s: String)
        requires
            self.wf(),
        ensures
            s@ == board_text(self@),
    {
        let ghost g = self@;
        let n = self.size;
        let mut s = String::new();
        for i in 0..n
            invariant
                g == self@,
                n == self.size,
                self.wf(),
                s@ == board_text(g.take(i as int)),
        {
            proof {
                self.lemma_row(i as int);
            }
            let ghost before = s@;
            for j in 0..n
                invariant
                    g == self@,
                    n == self.size,
                    self.wf(),
                    i < n,
                    self.board@[i as int]@.len() == n,
                    s@ == before + row_text(g[i as int].take(j as int)),
            {
                push_number(&mut s, self.board[i][j]);
                proof {
                    assert(g[i as int].take(j + 1).drop_last() =~= g[i as int].take(j as int));
                    assert(s@ =~= before + row_text(g[i as int].take(j + 1)));
                }
            }
            push_char(&mut s, '\n');
            proof {
                assert(g[i as int].take(n as int) =~= g[i as int]);
                assert(g.take(i + 1).drop_last() =~= g.take(i as int));
                assert(s@ =~= board_text(g.take(i + 1)));
            }
        }
        proof {
            assert(g.take(n as int) =~= g);
        }
        s
    }

}

/// The players touch exactly when some cell of `ply` has a cell of `opt`
/// right of it, below it, or below and right of it.
pub proof fn lemma_fight_started_means_touching(g: Seq<Seq<i8>>, ply: i8, opt: i8, r: BoardInfos)
    requires
        describes_board(g, ply, opt, r),
    ensures
        r.fight_started <==> exists|i: int, j: int, a: int, b: int|
            #![trigger g[i][j], g[a][b]]
            0 <= i < g.len() && 0 <= j < g.len() && 0 <= a < g.len() && 0 <= b < g.len() && g[i][j]
                == ply && g[a][b] == opt && i <= a <= i + 1 && j <= b <= j + 1 && (a != i || b != j),
{
    let n = g.len() as int;
    if r.fight_started {
        let (i, j) = choose|i: int, j: int| #[trigger] fight_at(g, ply, opt, i, j);
        if j + 1 < n && i + 1 < n && g[i + 1][j + 1] == opt {
            assert(g[i][j] == ply && g[i + 1][j + 1] == opt);
        } else if j + 1 < n && g[i][j + 1] == opt {
            assert(g[i][j] == ply && g[i][j + 1] == opt);
        } else {
            assert(g[i][j] == ply && g[i + 1][j] == opt);
        }
    }
    if exists|i: int, j: int, a: int, b: int|
        #![trigger g[i][j], g[a][b]]
        0 <= i < n && 0 <= j < n && 0 <= a < n && 0 <= b < n && g[i][j] == ply && g[a][b] == opt && i
            <= a <= i + 1 && j <= b <= j + 1 && (a != i || b != j) {
        let (i, j, a, b) = choose|i: int, j: int, a: int, b: int|
            #![trigger g[i][j], g[a][b]]
            0 <= i < n && 0 <= j < n && 0 <= a < n && 0 <= b < n && g[i][j] == ply && g[a][b] == opt && i
                <= a <= i + 1 && j <= b <= j + 1 && (a != i || b != j);
        assert(fight_at(g, ply, opt, i, j));
    }
}

/// How many cells of row `i`, over the columns `sx..ex`, belong to an
/// opponent of `player`.
pub open spec fn opponents_in_row(g: Seq<Seq<i8>>, player: i8, i: int, sx: int, ex: int) -> int
    decreases ex - sx,
{
    if ex <= sx {
        0
    } else {
        opponents_in_row(g, player, i, sx, ex - 1) + opponent_count(g, player, i, ex - 1)
    }
}

/// How many cells of rows `sy..ey` and columns `sx..ex` belong to an
/// opponent of `player`.
pub open spec fn opponents_in_rect(g: Seq<Seq<i8>>, player: i8, sy: int, ey: int, sx: int, ex: int) -> int
    decreases ey - sy,
{
    if ey <= sy {
        0
    } else {
        opponents_in_rect(g, player, sy, ey - 1, sx, ex) + opponents_in_row(g, player, ey - 1, sx, ex)
    }
}

/// The contact at `(y, x)` counts each opponent's cell of the three by three
/// square around `(y, x)` once, and `(y, x)` itself not at all.
pub proof fn lemma_contact_counts_the_square_around(g: Seq<Seq<i8>>, player: i8, y: int, x: int)
    ensures
        contact(g, player, y, x) == opponents_in_rect(g, player, y - 1, y + 2, x - 1, x + 2)
            - opponent_count(g, player, y, x),
{
    reveal_with_fuel(opponents_in_rect, 4);
    reveal_with_fuel(opponents_in_row, 4);
}

/// Some entry of the first nine of `r` is named `c`.
pub open spec fn lists_name(r: Seq<(CardinalPoints, CardinalPointsInfos)>, c: CardinalPoints) -> bool {
    exists|k: int| 0 <= k < 9 && #[trigger] r[k].0 == c
}

/// Each region is named by where it lies, whatever order the list comes
/// in: with `t` the third of the side, North is rows `0..t` and columns
/// `t..2t`, South rows `2t..n` and columns `t..2t`, East rows `t..2t` and
/// columns `2t..n`, West rows `t..2t` and columns `0..t`, the corners and
/// the Center likewise; and each of the nine names comes exactly once.
pub proof fn lemma_regions_by_name(
    g: Seq<Seq<i8>>,
    player: i8,
    r: Seq<(CardinalPoints, CardinalPointsInfos)>,
)
    requires
        regions_infos(g, player, r),
    ensures
        ({
            let n = g.len() as int;
            let t = n / 3;
            forall|k: int|
                0 <= k < 9 ==> match (#[trigger] r[k]).0 {
                    CardinalPoints::North => r[k].1 == rect_infos(g, player, 0, t, t, 2 * t),
                    CardinalPoints::South => r[k].1 == rect_infos(g, player, 2 * t, t, n, 2 * t),
                    CardinalPoints::East => r[k].1 == rect_infos(g, player, t, 2 * t, 2 * t, n),
                    CardinalPoints::West => r[k].1 == rect_infos(g, player, t, 0, 2 * t, t),
                    CardinalPoints::NorthEast => r[k].1 == rect_infos(g, player, 0, 2 * t, t, n),
                    CardinalPoints::NorthWest => r[k].1 == rect_infos(g, player, 0, 0, t, t),
                    CardinalPoints::SouthEast => r[k].1 == rect_infos(g, player, 2 * t, 2 * t, n, n),
                    CardinalPoints::SouthWest => r[k].1 == rect_infos(g, player, 2 * t, 0, n, t),
                    CardinalPoints::Center => r[k].1 == rect_infos(g, player, t, t, 2 * t, 2 * t),
                }
        }),
        forall|c: CardinalPoints| #[trigger] lists_name(r, c),
        forall|k1: int, k2: int| 0 <= k1 < 9 && 0 <= k2 < 9 && #[trigger] r[k1].0 == #[trigger] r[k2].0 ==> k1 == k2,
{
    let n = g.len() as int;
    assert forall|c: CardinalPoints| #[trigger] lists_name(r, c) by {
        match c {
            CardinalPoints::North => assert(r[0].0 == c),
            CardinalPoints::South => assert(r[1].0 == c),
            CardinalPoints::East => assert(r[2].0 == c),
            CardinalPoints::West => assert(r[3].0 == c),
            CardinalPoints::NorthEast => assert(r[4].0 == c),
            CardinalPoints::NorthWest => assert(r[5].0 == c),
            CardinalPoints::SouthEast => assert(r[6].0 == c),
            CardinalPoints::SouthWest => assert(r[7].0 == c),
            CardinalPoints::Center => assert(r[8].0 == c),
        }
    }
}

/// What a player holds of a rectangle tells of its edges: the top border
/// is a cell of the player on the first row, the bottom border on the last
/// row, the left border on the first column and the right border on the
/// last column, and the occupation is at most the rectangle's area.
pub proof fn lemma_rect_edges(g: Seq<Seq<i8>>, player: i8, sy: int, sx: int, ey: int, ex: int)
    requires
        sy <= ey,
        sx <= ex,
    ensures
        rect_infos(g, player, sy, sx, ey, ex).top_border <==> exists|j: int|
            sy < ey && sx <= j < ex && #[trigger] g[sy][j] == player,
        rect_infos(g, player, sy, sx, ey, ex).bottom_border <==> exists|j: int|
            sy < ey && sx <= j < ex && #[trigger] g[ey - 1][j] == player,
        rect_infos(g, player, sy, sx, ey, ex).left_border <==> exists|i: int|
            sx < ex && sy <= i < ey && #[trigger] g[i][sx] == player,
        rect_infos(g, player, sy, sx, ey, ex).right_border <==> exists|i: int|
            sx < ex && sy <= i < ey && #[trigger] g[i][ex - 1] == player,
        0 <= count_rect(g, player, sy, ey, sx, ex) <= (ey - sy) * (ex - sx),
{
    lemma_count_rect_bound(g, player, sy, ey, sx, ex);
}

} // verus!
