use vstd::prelude::*;

use crate::text::push_char;

verus! {

/// A square frame of `size` by `size` cells; the cells holding `Some` make
/// up the shape of the piece.
#[derive(Clone, Debug)]
pub struct Piece {
    pub size: usize,
    pub density: u32,
    pub piece: Vec<Vec<Option<char>>>,
}

impl View for Piece {
    type V = Seq<Seq<Option<char>>>;

    open spec fn view(&self) -> Seq<Seq<Option<char>>> {
        self.piece@.map_values(|row: Vec<Option<char>>| row@)
    }
}

/// The piece covers the offset `(a, b)` of its frame.
pub open spec fn covers(p: Seq<Seq<Option<char>>>, a: int, b: int) -> bool {
    &&& 0 <= a < p.len()
    &&& 0 <= b < p[a].len()
    &&& p[a][b] is Some
}

/// How many cells of `row` satisfy `f`.
pub open spec fn count_row_cells(row: Seq<Option<char>>, f: spec_fn(Option<char>) -> bool) -> nat
    decreases row.len(),
{
    if row.len() == 0 {
        0nat
    } else {
        count_row_cells(row.drop_last(), f) + if f(row.last()) {
            1nat
        } else {
            0nat
        }
    }
}

/// How many cells of `g` satisfy `f`.
pub open spec fn count_cells(g: Seq<Seq<Option<char>>>, f: spec_fn(Option<char>) -> bool) -> nat
    decreases g.len(),
{
    if g.len() == 0 {
        0nat
    } else {
        count_cells(g.drop_last(), f) + count_row_cells(g.last(), f)
    }
}

/// The cell is empty.
pub open spec fn is_empty_cell(c: Option<char>) -> bool {
    c is None
}

/// The cell is marked as part of the piece.
pub open spec fn is_star_cell(c: Option<char>) -> bool {
    c == Some('*')
}

/// How many cells of `g` are empty.
pub open spec fn count_empty(g: Seq<Seq<Option<char>>>) -> nat {
    count_cells(g, |c: Option<char>| is_empty_cell(c))
}

/// How many cells of `g` are marked.
pub open spec fn count_star(g: Seq<Seq<Option<char>>>) -> nat {
    count_cells(g, |c: Option<char>| is_star_cell(c))
}

/// `new` is `old` with some empty cells marked, and nothing else changed.
pub open spec fn grown(old: Seq<Seq<Option<char>>>, new: Seq<Seq<Option<char>>>) -> bool {
    &&& new.len() == old.len()
    &&& forall|i: int| 0 <= i < old.len() ==> #[trigger] new[i].len() == old[i].len()
    &&& forall|i: int, j: int|
        0 <= i < old.len() && 0 <= j < old[i].len() ==> #[trigger] new[i][j] == old[i][j] || (
        old[i][j] is None && new[i][j] == Some('*'))
}

proof fn lemma_count_row_update(
    row: Seq<Option<char>>,
    j: int,
    v: Option<char>,
    f: spec_fn(Option<char>) -> bool,
)
    requires
        0 <= j < row.len(),
    ensures
        count_row_cells(row.update(j, v), f) == count_row_cells(row, f) - (if f(row[j]) {
            1int
        } else {
            0
        }) + (if f(v) {
            1int
        } else {
            0
        }),
    decreases row.len(),
{
    if j == row.len() - 1 {
        assert(row.update(j, v).drop_last() =~= row.drop_last());
    } else {
        lemma_count_row_update(row.drop_last(), j, v, f);
        assert(row.update(j, v).drop_last() =~= row.drop_last().update(j, v));
    }
}

proof fn lemma_count_update(
    g: Seq<Seq<Option<char>>>,
    i: int,
    r: Seq<Option<char>>,
    f: spec_fn(Option<char>) -> bool,
)
    requires
        0 <= i < g.len(),
    ensures
        count_cells(g.update(i, r), f) == count_cells(g, f) - count_row_cells(g[i], f)
            + count_row_cells(r, f),
    decreases g.len(),
{
    if i == g.len() - 1 {
        assert(g.update(i, r).drop_last() =~= g.drop_last());
    } else {
        lemma_count_update(g.drop_last(), i, r, f);
        assert(g.update(i, r).drop_last() =~= g.drop_last().update(i, r));
    }
}

pub(crate) proof fn lemma_count_row_bound(row: Seq<Option<char>>, f: spec_fn(Option<char>) -> bool)
    ensures
        0 <= count_row_cells(row, f) <= row.len(),
    decreases row.len(),
{
    if row.len() > 0 {
        lemma_count_row_bound(row.drop_last(), f);
    }
}

pub(crate) proof fn lemma_count_bound(g: Seq<Seq<Option<char>>>, n: int, f: spec_fn(Option<char>) -> bool)
    requires
        forall|i: int| 0 <= i < g.len() ==> #[trigger] g[i].len() == n,
        0 <= n,
    ensures
        0 <= count_cells(g, f) <= g.len() * n,
    decreases g.len(),
{
    if g.len() > 0 {
        assert forall|i: int| 0 <= i < g.drop_last().len() implies #[trigger] g.drop_last()[i].len() == n by {
            assert(g[i].len() == n);
        }
        lemma_count_bound(g.drop_last(), n, f);
        lemma_count_row_bound(g.last(), f);
        assert((g.len() - 1) * n + n == g.len() * n) by (nonlinear_arith);
    }
}

/// Marking cell `(i, j)` of `g`: one empty cell fewer if it was empty, as
/// many if it was marked already.
pub(crate) proof fn lemma_mark(g: Seq<Seq<Option<char>>>, i: int, j: int)
    requires
        0 <= i < g.len(),
        0 <= j < g[i].len(),
    ensures
        count_empty(g.update(i, g[i].update(j, Some('*')))) == count_empty(g) - (if g[i][j] is None {
            1int
        } else {
            0
        }),
{
    let f = |c: Option<char>| is_empty_cell(c);
    lemma_count_row_update(g[i], j, Some('*'), f);
    lemma_count_update(g, i, g[i].update(j, Some('*')), f);
}

pub(crate) proof fn lemma_grown_trans(a: Seq<Seq<Option<char>>>, b: Seq<Seq<Option<char>>>, c: Seq<Seq<Option<char>>>)
    requires
        grown(a, b),
        grown(b, c),
    ensures
        grown(a, c),
{
    assert forall|i: int, j: int| 0 <= i < a.len() && 0 <= j < a[i].len() implies #[trigger] c[i][j]
        == a[i][j] || (a[i][j] is None && c[i][j] == Some('*')) by {
        assert(b[i][j] == a[i][j] || (a[i][j] is None && b[i][j] == Some('*')));
        assert(b[i].len() == a[i].len());
        assert(c[i][j] == b[i][j] || (b[i][j] is None && c[i][j] == Some('*')));
    }
}

/// The extent of a piece within its frame.
#[derive(Clone, Copy, Debug, PartialEq, Eq)]
pub struct PieceInfos {
    /// How many columns the marked cells span.
    pub width: usize,
    /// How many rows the marked cells span.
    pub height: usize,
    /// How many cells are marked.
    pub cells: usize,
    pub is_horizontal: bool,
    pub is_vertical: bool,
}

/// Cell `(i, j)` of `p` is marked.
pub open spec fn is_star(p: Seq<Seq<Option<char>>>, i: int, j: int) -> bool {
    0 <= i < p.len() && 0 <= j < p[i].len() && p[i][j] == Some('*')
}

/// Some cell of `p` is marked.
pub open spec fn has_star(p: Seq<Seq<Option<char>>>) -> bool {
    exists|i: int, j: int| #[trigger] is_star(p, i, j)
}

/// The marked cells of `p` lie in rows `lo` to `hi`, and both hold one.
pub open spec fn is_row_span(p: Seq<Seq<Option<char>>>, lo: int, hi: int) -> bool {
    &&& exists|j: int| #[trigger] is_star(p, lo, j)
    &&& exists|j: int| #[trigger] is_star(p, hi, j)
    &&& forall|i: int, j: int| #[trigger] is_star(p, i, j) ==> lo <= i <= hi
}

/// The marked cells of `p` lie in columns `lo` to `hi`, and both hold one.
pub open spec fn is_col_span(p: Seq<Seq<Option<char>>>, lo: int, hi: int) -> bool {
    &&& exists|i: int| #[trigger] is_star(p, i, lo)
    &&& exists|i: int| #[trigger] is_star(p, i, hi)
    &&& forall|i: int, j: int| #[trigger] is_star(p, i, j) ==> lo <= j <= hi
}

/// `r` gives the extent of piece `p`: the rows and columns that its marked
/// cells span (one and one when it has none) and how many they are.
pub open spec fn describes_piece(p: Seq<Seq<Option<char>>>, r: PieceInfos) -> bool {
    &&& r.cells == count_star(p)
    &&& has_star(p) ==> exists|lo: int, hi: int| is_row_span(p, lo, hi) && r.height == hi - lo + 1
    &&& has_star(p) ==> exists|lo: int, hi: int| is_col_span(p, lo, hi) && r.width == hi - lo + 1
    &&& !has_star(p) ==> r.height == 1 && r.width == 1
    &&& r.is_horizontal == (r.height <= r.width)
    &&& r.is_vertical == (r.height >= r.width)
}


proof fn lemma_count_row_prefix(row: Seq<Option<char>>, j: int, f: spec_fn(Option<char>) -> bool)
    requires
        0 < j <= row.len(),
    ensures
        count_row_cells(row.take(j), f) == count_row_cells(row.take(j - 1), f) + if f(row[j - 1]) {
            1nat
        } else {
            0nat
        },
{
    assert(row.take(j).drop_last() =~= row.take(j - 1));
}

proof fn lemma_count_take_bound(g: Seq<Seq<Option<char>>>, i: int, n: int, f: spec_fn(Option<char>) -> bool)
    requires
        0 < i <= g.len(),
        0 <= n,
        forall|k: int| 0 <= k < g.len() ==> #[trigger] g[k].len() == n,
        g.len() * n <= usize::MAX,
    ensures
        count_cells(g.take(i), f) <= usize::MAX,
        count_cells(g.take(i), f) == count_cells(g.take(i - 1), f) + count_row_cells(g[i - 1], f),
{
    assert(g.take(i).drop_last() =~= g.take(i - 1));
    assert forall|k: int| 0 <= k < g.take(i).len() implies #[trigger] g.take(i)[k].len() == n by {
        assert(g[k].len() == n);
    }
    lemma_count_bound(g.take(i), n, f);
    assert(i * n <= g.len() * n) by (nonlinear_arith)
        requires
            i <= g.len(),
            0 <= n,
    ;
}

proof fn lemma_count_row_take(row: Seq<Option<char>>, k: int, f: spec_fn(Option<char>) -> bool)
    requires
        0 <= k <= row.len(),
    ensures
        count_row_cells(row.take(k), f) <= count_row_cells(row, f),
    decreases row.len(),
{
    if k == row.len() {
        assert(row.take(k) =~= row);
    } else {
        assert(row.drop_last().take(k) =~= row.take(k));
        lemma_count_row_take(row.drop_last(), k, f);
    }
}

/// Cells `(i, j)` and `(k, l)` are distinct and touch, by a side or a
/// corner.
pub open spec fn adjacent(i: int, j: int, k: int, l: int) -> bool {
    &&& (i != k || j != l)
    &&& -1 <= i - k <= 1
    &&& -1 <= j - l <= 1
}

/// Cell `(i, j)` is empty in `old` and marked in `new`.
pub open spec fn fresh(old: Seq<Seq<Option<char>>>, new: Seq<Seq<Option<char>>>, i: int, j: int) -> bool {
    &&& 0 <= i < old.len()
    &&& 0 <= j < old[i].len()
    &&& old[i][j] is None
    &&& new[i][j] == Some('*')
}

/// `rank` leads every cell marked between `old` and `new` back to `(y, x)`:
/// each such cell but `(y, x)` touches a cell of lower rank that is `(y, x)`
/// or was marked too, and `(y, x)` has rank zero. Following lower ranks
/// therefore walks from any marked cell to `(y, x)` over marked cells.
pub open spec fn linked(
    old: Seq<Seq<Option<char>>>,
    new: Seq<Seq<Option<char>>>,
    y: int,
    x: int,
    rank: spec_fn(int, int) -> nat,
) -> bool {
    &&& rank(y, x) == 0
    &&& forall|i: int, j: int|
        #[trigger] fresh(old, new, i, j) && (i != y || j != x) ==> exists|k: int, l: int|
            #[trigger] adjacent(i, j, k, l) && ((k == y && l == x) || fresh(old, new, k, l)) && rank(k, l)
                < rank(i, j)
}

/// The cells marked between `old` and `new` are all joined to `(y, x)` by
/// steps between touching marked cells.
pub open spec fn linked_from(
    old: Seq<Seq<Option<char>>>,
    new: Seq<Seq<Option<char>>>,
    y: int,
    x: int,
) -> bool {
    exists|rank: spec_fn(int, int) -> nat| linked(old, new, y, x, rank)
}

/// The ranks after a second step of growth from `(ty, tx)`, between `s1`
/// and `s2`, which followed a first one ranked by `r`.
pub open spec fn combine(
    s1: Seq<Seq<Option<char>>>,
    s2: Seq<Seq<Option<char>>>,
    r: spec_fn(int, int) -> nat,
    rd: spec_fn(int, int) -> nat,
) -> spec_fn(int, int) -> nat {
    |i: int, j: int|
        if fresh(s1, s2, i, j) {
            1 + rd(i, j)
        } else {
            r(i, j)
        }
}

pub(crate) proof fn lemma_link(
    g0: Seq<Seq<Option<char>>>,
    s1: Seq<Seq<Option<char>>>,
    s2: Seq<Seq<Option<char>>>,
    y: int,
    x: int,
    r: spec_fn(int, int) -> nat,
    ty: int,
    tx: int,
    rd: spec_fn(int, int) -> nat,
)
    requires
        0 <= y < g0.len(),
        0 <= x < g0[y].len(),
        grown(g0.update(y, g0[y].update(x, Some('*'))), s1),
        grown(s1, s2),
        linked(g0, s1, y, x, r),
        linked(s1, s2, ty, tx, rd),
        (ty == y && tx == x) || (adjacent(ty, tx, y, x) && (s2 == s1 || fresh(s1, s2, ty, tx))),
    ensures
        linked(g0, s2, y, x, combine(s1, s2, r, rd)),
{
    let g1 = g0.update(y, g0[y].update(x, Some('*')));
    let c = combine(s1, s2, r, rd);
    assert(s1[y][x] == Some('*')) by {
        assert(g1[y][x] == Some('*'));
    }
    assert(!fresh(s1, s2, y, x));
    assert forall|i: int, j: int| #[trigger] fresh(g0, s2, i, j) && (i != y || j != x) implies exists|
        k: int,
        l: int,
    |
        #[trigger] adjacent(i, j, k, l) && ((k == y && l == x) || fresh(g0, s2, k, l)) && c(k, l) < c(i, j) by {
        assert(g1[i][j] == g0[i][j]);
        assert(s1[i].len() == g1[i].len());
        assert(s2[i].len() == s1[i].len());
        if fresh(s1, s2, i, j) {
            if i == ty && j == tx {
                assert(adjacent(i, j, y, x));
                assert(c(y, x) == 0);
            } else {
                let (k, l) = choose|k: int, l: int|
                    #[trigger] adjacent(i, j, k, l) && ((k == ty && l == tx) || fresh(s1, s2, k, l)) && rd(
                        k,
                        l,
                    ) < rd(i, j);
                if fresh(s1, s2, k, l) {
                    if k == y && l == x {
                    } else {
                        assert(g1[k][l] == g0[k][l]);
                        assert(s1[k].len() == g1[k].len());
                        assert(fresh(g0, s2, k, l));
                    }
                    assert(adjacent(i, j, k, l) && ((k == y && l == x) || fresh(g0, s2, k, l)) && c(k, l)
                        < c(i, j));
                } else {
                    assert(k == ty && l == tx);
                    assert(ty == y && tx == x);
                    assert(adjacent(i, j, k, l) && ((k == y && l == x) || fresh(g0, s2, k, l)) && c(k, l)
                        < c(i, j));
                }
            }
        } else {
            assert(s1[i][j] == Some('*'));
            assert(fresh(g0, s1, i, j));
            let (k, l) = choose|k: int, l: int|
                #[trigger] adjacent(i, j, k, l) && ((k == y && l == x) || fresh(g0, s1, k, l)) && r(k, l) < r(
                    i,
                    j,
                );
            if k == y && l == x {
            } else {
                assert(s1[k].len() == g1[k].len());
                assert(!fresh(s1, s2, k, l));
                assert(s2[k][l] == Some('*'));
                assert(fresh(g0, s2, k, l));
            }
            assert(adjacent(i, j, k, l) && ((k == y && l == x) || fresh(g0, s2, k, l)) && c(k, l) < c(
                i,
                j,
            ));
        }
    }
}

/// How a cell of a piece is written: its character, or a blank when it is
/// empty.
pub open spec fn cell_char(c: Option<char>) -> char {
    match c {
        Some(c) => c,
        None => ' ',
    }
}

/// How a row of a piece is written.
pub open spec fn piece_row_text(r: Seq<Option<char>>) -> Seq<char>
    decreases r.len(),
{
    if r.len() == 0 {
        seq![]
    } else {
        piece_row_text(r.drop_last()).push(cell_char(r.last()))
    }
}

/// How a piece is written: each row of its frame on a line of its own.
pub open spec fn piece_text(g: Seq<Seq<Option<char>>>) -> Seq<char>
    decreases g.len(),
{
    if g.len() == 0 {
        seq![]
    } else {
        (piece_text(g.drop_last()) + piece_row_text(g.last())).push('\n')
    }
}

impl Piece {
    /// The frame has `size` rows of `size` cells, all of which fit in memory
    /// at once.
    pub open spec fn wf(&self) -> bool {
        &&& self@.len() == self.size
        &&& forall|i: int| 0 <= i < self.size ==> #[trigger] self@[i].len() == self.size
        &&& self.size * self.size <= usize::MAX
    }

    /// An empty frame of the given size.
    pub fn new(size: usize, density: u32) -> (p: Self)
        requires
            size * size <= usize::MAX,
        ensures
            p.wf(),
            p.size == size,
            p.density == density,
            forall|i: int, j: int| 0 <= i < size && 0 <= j < size ==> p@[i][j] is None,
    {
        let mut piece: Vec<Vec<Option<char>>> = Vec::new();
        for i in 0..size
            invariant
                piece@.len() == i,
                forall|k: int| 0 <= k < i ==> #[trigger] piece@[k]@.len() == size,
                forall|k: int, j: int| 0 <= k < i && 0 <= j < size ==> piece@[k]@[j] is None,
        {
            let mut row: Vec<Option<char>> = Vec::new();
            for j in 0..size
                invariant
                    row@.len() == j,
                    forall|l: int| 0 <= l < j ==> row@[l] is None,
            {
                row.push(None);
            }
            piece.push(row);
        }
        Piece { size, density, piece }
    }

    /// The piece as text: each row of its frame on a line of its own, with
    /// a blank for an empty cell.
    pub fn render(&self) -> (s: String)
        requires
            self.wf(),
        ensures
            s@ == piece_text(self@),
    {
        let ghost g = self@;
        let n = self.size;
        let mut s = String::new();
        for i in 0..n
            invariant
                g == self@,
                n == self.size,
                self.wf(),
                s@ == piece_text(g.take(i as int)),
        {
            proof {
                assert(g[i as int].len() == n);
            }
            let ghost before = s@;
            for j in 0..n
                invariant
                    g == self@,
                    n == self.size,
                    self.wf(),
                    i < n,
                    g[i as int].len() == n,
                    s@ == before + piece_row_text(g[i as int].take(j as int)),
            {
                let c = match self.piece[i][j] {
                    Some(c) => c,
                    None => ' ',
                };
                push_char(&mut s, c);
                proof {
                    assert(g[i as int].take(j + 1).drop_last() =~= g[i as int].take(j as int));
                    assert(s@ =~= before + piece_row_text(g[i as int].take(j + 1)));
                }
            }
            push_char(&mut s, '\n');
            proof {
                assert(g[i as int].take(n as int) =~= g[i as int]);
                assert(g.take(i + 1).drop_last() =~= g.take(i as int));
                assert(s@ =~= piece_text(g.take(i + 1)));
            }
        }
        proof {
            assert(g.take(n as int) =~= g);
        }
        s
    }

    /// `1` when cell `(y, x)` of `g` is already marked, `0` when it is empty.
    pub open spec fn marked_already(g: Seq<Seq<Option<char>>>, y: int, x: int) -> int {
        if g[y][x] is None {
            0
        } else {
            1
        }
    }

    /// The span of the marked cells in rows and columns, and how many they
    /// are. A frame with no marked cell must be of size zero.
    pub fn compute_piece_infos(&self) -> (r: PieceInfos)
        requires
            self.wf(),
            self.size == 0 || has_star(self@),
        ensures
            describes_piece(self@, r),
    {
        let ghost p = self@;
        let ghost f = |c: Option<char>| is_star_cell(c);
        let m = self.size;
        let mut cells: usize = 0;
        let mut min_x: usize = m;
        let mut max_x: usize = 0;
        let mut min_y: usize = m;
        let mut max_y: usize = 0;
        let ghost mut seen = false;
        let ghost mut w_min_x: (int, int) = (0, 0);
        let ghost mut w_max_x: (int, int) = (0, 0);
        let ghost mut w_min_y: (int, int) = (0, 0);
        let ghost mut w_max_y: (int, int) = (0, 0);
        proof {
            lemma_count_bound(p, m as int, f);
        }
        for i in 0..m
            invariant
                p == self@,
                m == self.size,
                self.wf(),
                f == (|c: Option<char>| is_star_cell(c)),
                cells == count_cells(p.take(i as int), f),
                count_cells(p, f) <= m * m,
                !seen ==> min_x == m && max_x == 0 && min_y == m && max_y == 0,
                !seen ==> forall|a: int, b: int| #[trigger] is_star(p, a, b) ==> a >= i,
                seen ==> is_star(p, w_min_x.0, w_min_x.1) && w_min_x.0 == min_x && w_min_x.0 < i,
                seen ==> is_star(p, w_max_x.0, w_max_x.1) && w_max_x.0 == max_x && w_max_x.0 < i,
                seen ==> is_star(p, w_min_y.0, w_min_y.1) && w_min_y.1 == min_y && w_min_y.0 < i,
                seen ==> is_star(p, w_max_y.0, w_max_y.1) && w_max_y.1 == max_y && w_max_y.0 < i,
                seen ==> forall|a: int, b: int|
                    #[trigger] is_star(p, a, b) && a < i ==> min_x <= a <= max_x && min_y <= b <= max_y,
        {
            proof {
                assert(p[i as int].len() == m);
                lemma_count_take_bound(p, i as int + 1, m as int, f);
            }
            for j in 0..m
                invariant
                    p == self@,
                    m == self.size,
                    self.wf(),
                    i < m,
                    p[i as int].len() == m,
                    f == (|c: Option<char>| is_star_cell(c)),
                    cells == count_cells(p.take(i as int), f) + count_row_cells(p[i as int].take(j as int), f),
                    count_cells(p.take(i + 1), f) <= usize::MAX,
                    count_cells(p.take(i + 1), f) == count_cells(p.take(i as int), f) + count_row_cells(p[i as int], f),
                    !seen ==> min_x == m && max_x == 0 && min_y == m && max_y == 0,
                    !seen ==> forall|a: int, b: int|
                        #[trigger] is_star(p, a, b) ==> a > i || (a == i && b >= j),
                    seen ==> is_star(p, w_min_x.0, w_min_x.1) && w_min_x.0 == min_x && w_min_x.0 <= i,
                    seen ==> is_star(p, w_max_x.0, w_max_x.1) && w_max_x.0 == max_x && w_max_x.0 <= i,
                    seen ==> is_star(p, w_min_y.0, w_min_y.1) && w_min_y.1 == min_y && w_min_y.0 <= i,
                    seen ==> is_star(p, w_max_y.0, w_max_y.1) && w_max_y.1 == max_y && w_max_y.0 <= i,
                    seen ==> forall|a: int, b: int|
                        #[trigger] is_star(p, a, b) && (a < i || (a == i && b < j)) ==> min_x <= a
                            <= max_x && min_y <= b <= max_y,
            {
                proof {
                    assert(p[i as int].take(j + 1).drop_last() =~= p[i as int].take(j as int));
                    lemma_count_row_prefix(p[i as int], j + 1, f);
                    lemma_count_row_take(p[i as int], j + 1, f);
                }
                let star = match self.piece[i][j] {
                    Some(c) => c == '*',
                    None => false,
                };
                if star {
                    cells = cells + 1;
                    proof {
                        if !seen || i < min_x {
                            w_min_x = (i as int, j as int);
                        }
                        if !seen || i > max_x {
                            w_max_x = (i as int, j as int);
                        }
                        if !seen || j < min_y {
                            w_min_y = (i as int, j as int);
                        }
                        if !seen || j > max_y {
                            w_max_y = (i as int, j as int);
                        }
                        seen = true;
                    }
                    if i < min_x {
                        min_x = i;
                    }
                    if i > max_x {
                        max_x = i;
                    }
                    if j < min_y {
                        min_y = j;
                    }
                    if j > max_y {
                        max_y = j;
                    }
                }
            }
            proof {
                assert(p[i as int].take(m as int) =~= p[i as int]);
            }
        }
        proof {
            assert(p.take(m as int) =~= p);
            if seen {
                assert(is_row_span(p, min_x as int, max_x as int));
                assert(is_col_span(p, min_y as int, max_y as int));
            } else {
                assert(!has_star(p));
            }
        }
        let height = max_x - min_x + 1;
        let width = max_y - min_y + 1;
        PieceInfos {
            width,
            height,
            cells,
            is_horizontal: height <= width,
            is_vertical: height >= width,
        }
    }

}

/// How many cells `g` has, row by row.
pub open spec fn total_cells(g: Seq<Seq<Option<char>>>) -> nat
    decreases g.len(),
{
    if g.len() == 0 {
        0
    } else {
        total_cells(g.drop_last()) + g.last().len()
    }
}

/// Every cell of `g` is empty or marked.
pub open spec fn only_stars(g: Seq<Seq<Option<char>>>) -> bool {
    forall|i: int, j: int|
        0 <= i < g.len() && 0 <= j < g[i].len() ==> #[trigger] g[i][j] is None || g[i][j] == Some('*')
}

proof fn lemma_row_partition(row: Seq<Option<char>>)
    requires
        forall|j: int| 0 <= j < row.len() ==> #[trigger] row[j] is None || row[j] == Some('*'),
    ensures
        count_row_cells(row, |c: Option<char>| is_empty_cell(c)) + count_row_cells(
            row,
            |c: Option<char>| is_star_cell(c),
        ) == row.len(),
    decreases row.len(),
{
    if row.len() > 0 {
        assert forall|j: int| 0 <= j < row.drop_last().len() implies #[trigger] row.drop_last()[j] is None
            || row.drop_last()[j] == Some('*') by {
            assert(row[j] is None || row[j] == Some('*'));
        }
        lemma_row_partition(row.drop_last());
        assert(row.last() is None || row.last() == Some('*')) by {
            assert(row[row.len() - 1] is None || row[row.len() - 1] == Some('*'));
        }
    }
}

/// In a frame whose cells are all empty or marked, the empty cells and the
/// marked cells add up to all the cells.
proof fn lemma_partition(g: Seq<Seq<Option<char>>>)
    requires
        only_stars(g),
    ensures
        count_empty(g) + count_star(g) == total_cells(g),
    decreases g.len(),
{
    if g.len() > 0 {
        assert(only_stars(g.drop_last())) by {
            assert forall|i: int, j: int|
                0 <= i < g.drop_last().len() && 0 <= j < g.drop_last()[i].len() implies #[trigger] g.drop_last()[i][j] is None
                || g.drop_last()[i][j] == Some('*') by {
                assert(g[i][j] is None || g[i][j] == Some('*'));
            }
        }
        lemma_partition(g.drop_last());
        let last = g.last();
        assert forall|j: int| 0 <= j < last.len() implies #[trigger] last[j] is None || last[j] == Some('*') by {
            assert(g[g.len() - 1][j] is None || g[g.len() - 1][j] == Some('*'));
        }
        lemma_row_partition(last);
    }
}

/// A piece grown on an empty frame, from a size of zero, reports as its
/// size the number of cells that it marked.
pub proof fn lemma_generated_size(
    old: Seq<Seq<Option<char>>>,
    new: Seq<Seq<Option<char>>>,
    y: int,
    x: int,
    r: int,
)
    requires
        forall|i: int, j: int| 0 <= i < old.len() && 0 <= j < old[i].len() ==> #[trigger] old[i][j] is None,
        0 <= y < old.len(),
        0 <= x < old[y].len(),
        grown(old.update(y, old[y].update(x, Some('*'))), new),
        r + count_empty(new) == count_empty(old) + Piece::marked_already(old, y, x),
    ensures
        r == count_star(new),
{
    let g1 = old.update(y, old[y].update(x, Some('*')));
    assert(only_stars(old));
    lemma_partition(old);
    assert(only_stars(new)) by {
        assert forall|i: int, j: int| 0 <= i < new.len() && 0 <= j < new[i].len() implies #[trigger] new[i][j] is None
            || new[i][j] == Some('*') by {
            assert(new[i].len() == g1[i].len());
            assert(new[i][j] == g1[i][j] || (g1[i][j] is None && new[i][j] == Some('*')));
            if i == y && j == x {
            } else {
                assert(g1[i][j] == old[i][j]);
            }
        }
    }
    lemma_partition(new);
    lemma_total_same(old, new);
    lemma_no_star(old);
}

proof fn lemma_total_same(a: Seq<Seq<Option<char>>>, b: Seq<Seq<Option<char>>>)
    requires
        a.len() == b.len(),
        forall|i: int| 0 <= i < a.len() ==> #[trigger] a[i].len() == b[i].len(),
    ensures
        total_cells(a) == total_cells(b),
    decreases a.len(),
{
    if a.len() > 0 {
        assert forall|i: int| 0 <= i < a.drop_last().len() implies #[trigger] a.drop_last()[i].len() == b.drop_last()[i].len() by {
            assert(a[i].len() == b[i].len());
        }
        lemma_total_same(a.drop_last(), b.drop_last());
        assert(a[a.len() - 1].len() == b[b.len() - 1].len());
    }
}

proof fn lemma_no_star_row(row: Seq<Option<char>>)
    requires
        forall|j: int| 0 <= j < row.len() ==> #[trigger] row[j] is None,
    ensures
        count_row_cells(row, |c: Option<char>| is_star_cell(c)) == 0,
    decreases row.len(),
{
    if row.len() > 0 {
        assert forall|j: int| 0 <= j < row.drop_last().len() implies #[trigger] row.drop_last()[j] is None by {
            assert(row[j] is None);
        }
        lemma_no_star_row(row.drop_last());
        assert(row[row.len() - 1] is None);
    }
}

proof fn lemma_no_star(g: Seq<Seq<Option<char>>>)
    requires
        forall|i: int, j: int| 0 <= i < g.len() && 0 <= j < g[i].len() ==> #[trigger] g[i][j] is None,
    ensures
        count_star(g) == 0,
    decreases g.len(),
{
    if g.len() > 0 {
        assert forall|i: int, j: int| 0 <= i < g.drop_last().len() && 0 <= j < g.drop_last()[i].len() implies #[trigger] g.drop_last()[i][j] is None by {
            assert(g[i][j] is None);
        }
        lemma_no_star(g.drop_last());
        let last = g.last();
        assert forall|j: int| 0 <= j < last.len() implies #[trigger] last[j] is None by {
            assert(g[g.len() - 1][j] is None);
        }
        lemma_no_star_row(last);
    }
}

} // verus!
