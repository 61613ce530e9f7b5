use vstd::prelude::*;

use crate::piece::{
    adjacent, combine, count_cells, count_empty, count_row_cells, fresh, grown, is_empty_cell,
    lemma_count_bound, lemma_grown_trans, lemma_link, lemma_mark, linked, linked_from, Piece,
};
use crate::random::random_below;

verus! {

/// How many times a piece is grown again from its first cell when nothing
/// else was reached, before an empty neighbour of that cell is taken.
pub const MAX_ATTEMPTS: u32 = 1_000_000;

/// The draw at position `k` of `d`, or zero past its end.
pub open spec fn draw_at(d: Seq<int>, k: int) -> int {
    if 0 <= k < d.len() {
        d[k]
    } else {
        0
    }
}

/// Grid `g` with cell `(y, x)` marked.
pub open spec fn mark(g: Seq<Seq<Option<char>>>, y: int, x: int) -> Seq<Seq<Option<char>>> {
    g.update(y, g[y].update(x, Some('*')))
}

/// The `i`-th neighbour of `(x, y)` in a frame of side `n`, as `(x, y)`,
/// when it lies in the frame: right, below, left, above, then below and
/// right, below and left, above and left, above and right.
pub open spec fn neighbour(i: int, x: int, y: int, n: int) -> Option<(int, int)> {
    if i == 0 {
        if x + 1 < n { Some((x + 1, y)) } else { None }
    } else if i == 1 {
        if y + 1 < n { Some((x, y + 1)) } else { None }
    } else if i == 2 {
        if x > 0 { Some((x - 1, y)) } else { None }
    } else if i == 3 {
        if y > 0 { Some((x, y - 1)) } else { None }
    } else if i == 4 {
        if x + 1 < n && y + 1 < n { Some((x + 1, y + 1)) } else { None }
    } else if i == 5 {
        if y + 1 < n && x > 0 { Some((x - 1, y + 1)) } else { None }
    } else if i == 6 {
        if x > 0 && y > 0 { Some((x - 1, y - 1)) } else { None }
    } else {
        if y > 0 && x + 1 < n { Some((x + 1, y - 1)) } else { None }
    }
}

/// The growth from `(x, y)` driven by the draws `d` from position `k` on:
/// the cell is marked and counted, then each neighbour in turn is tried
/// (see `spread_to_spec`). Gives the grid, the count and the position of
/// the next draw. `fuel` bounds the depth; it is taken large enough that it
/// never runs out.
pub open spec fn spread_spec(
    fuel: nat,
    g: Seq<Seq<Option<char>>>,
    x: int,
    y: int,
    n: int,
    ps: int,
    d: Seq<int>,
    k: int,
) -> (Seq<Seq<Option<char>>>, int, int)
    decreases fuel, 0int, 0int,
{
    if fuel == 0 {
        (g, ps, k)
    } else {
        dirs_spec((fuel - 1) as nat, (mark(g, y, x), ps + 1, k), x, y, n, d, 8)
    }
}

/// The tries of the first `i` neighbours of `(x, y)`, from state `s`.
pub open spec fn dirs_spec(
    fuel: nat,
    s: (Seq<Seq<Option<char>>>, int, int),
    x: int,
    y: int,
    n: int,
    d: Seq<int>,
    i: int,
) -> (Seq<Seq<Option<char>>>, int, int)
    decreases fuel, 2int, i,
{
    if i <= 0 {
        s
    } else {
        let s1 = dirs_spec(fuel, s, x, y, n, d, i - 1);
        match neighbour(i - 1, x, y, n) {
            Some(t) => spread_to_spec(fuel, s1, t.0, t.1, n, d),
            None => s1,
        }
    }
}

/// The try of cell `(x, y)` from state `s`: one draw is taken, and the
/// growth spreads there when the draw is one and the cell is empty.
pub open spec fn spread_to_spec(
    fuel: nat,
    s: (Seq<Seq<Option<char>>>, int, int),
    x: int,
    y: int,
    n: int,
    d: Seq<int>,
) -> (Seq<Seq<Option<char>>>, int, int)
    decreases fuel, 1int, 0int,
{
    if draw_at(d, s.2) == 1 && s.0[y][x] is None {
        spread_spec(fuel, s.0, x, y, n, s.1, d, s.2 + 1)
    } else {
        (s.0, s.1, s.2 + 1)
    }
}

/// Enough fuel for a growth on grid `g`.
pub open spec fn fuel_of(g: Seq<Seq<Option<char>>>) -> nat {
    count_empty(g) + 2
}

/// The state after `t` more tries from `(x, y)`, each made while the count
/// is below two, from a count one lower (the first cell is counted again).
pub open spec fn retry_spec(
    t: nat,
    s: (Seq<Seq<Option<char>>>, int, int),
    x: int,
    y: int,
    n: int,
    d: Seq<int>,
) -> (Seq<Seq<Option<char>>>, int, int)
    decreases t,
{
    if t == 0 {
        s
    } else {
        let p = retry_spec((t - 1) as nat, s, x, y, n, d);
        if p.1 >= 2 {
            p
        } else {
            spread_spec(fuel_of(p.0), p.0, x, y, n, p.1 - 1, d, p.2)
        }
    }
}

/// The first of the neighbours of `(x, y)` from the `i`-th on that is
/// empty in `g`.
pub open spec fn first_empty(g: Seq<Seq<Option<char>>>, x: int, y: int, n: int, i: int) -> Option<
    (int, int),
>
    decreases 8 - i,
{
    if i >= 8 {
        None
    } else {
        match neighbour(i, x, y, n) {
            Some(t) => if g[t.1][t.0] is None {
                Some(t)
            } else {
                first_empty(g, x, y, n, i + 1)
            },
            None => first_empty(g, x, y, n, i + 1),
        }
    }
}

/// `(x, y)` has an empty neighbour in `g`.
pub open spec fn has_empty_neighbour(g: Seq<Seq<Option<char>>>, x: int, y: int, n: int) -> bool {
    exists|i: int|
        0 <= i < 8 && (#[trigger] neighbour(i, x, y, n) matches Some(t) && g[t.1][t.0] is None)
}

/// The whole growth of a piece from `(x, y)` and a count `ps`, driven by
/// the draws `d`: a first try, then up to `MAX_ATTEMPTS - 1` more while
/// the count is below two, and if it still is, the first empty neighbour
/// of `(x, y)` is marked. Gives the grid, the count and the number of
/// draws used.
pub open spec fn grow_spec(
    g: Seq<Seq<Option<char>>>,
    x: int,
    y: int,
    n: int,
    ps: int,
    d: Seq<int>,
) -> (Seq<Seq<Option<char>>>, int, int) {
    let s1 = spread_spec(fuel_of(g), g, x, y, n, ps, d, 0);
    let s2 = retry_spec((MAX_ATTEMPTS - 1) as nat, s1, x, y, n, d);
    if s2.1 >= 2 {
        s2
    } else {
        match first_empty(s2.0, x, y, n, 0) {
            Some(t) => (mark(s2.0, t.1, t.0), s2.1 + 1, s2.2),
            None => s2,
        }
    }
}

/// The draws `d1` and `d2` agree below position `m`.
pub open spec fn agree(d1: Seq<int>, d2: Seq<int>, m: int) -> bool {
    forall|i: int| 0 <= i < m ==> #[trigger] draw_at(d1, i) == draw_at(d2, i)
}

proof fn lemma_spread_agree(
    fuel: nat,
    g: Seq<Seq<Option<char>>>,
    x: int,
    y: int,
    n: int,
    ps: int,
    d1: Seq<int>,
    d2: Seq<int>,
    k: int,
    m: int,
)
    requires
        agree(d1, d2, m),
    ensures
        spread_spec(fuel, g, x, y, n, ps, d1, k).2 >= k,
        spread_spec(fuel, g, x, y, n, ps, d1, k).2 <= m ==> spread_spec(fuel, g, x, y, n, ps, d2, k)
            == spread_spec(fuel, g, x, y, n, ps, d1, k),
    decreases fuel, 0int, 0int,
{
    if fuel > 0 {
        lemma_dirs_agree((fuel - 1) as nat, (mark(g, y, x), ps + 1, k), x, y, n, d1, d2, 8, m);
    }
}

proof fn lemma_dirs_agree(
    fuel: nat,
    s: (Seq<Seq<Option<char>>>, int, int),
    x: int,
    y: int,
    n: int,
    d1: Seq<int>,
    d2: Seq<int>,
    i: int,
    m: int,
)
    requires
        agree(d1, d2, m),
    ensures
        dirs_spec(fuel, s, x, y, n, d1, i).2 >= s.2,
        dirs_spec(fuel, s, x, y, n, d1, i).2 <= m ==> dirs_spec(fuel, s, x, y, n, d2, i) == dirs_spec(
            fuel,
            s,
            x,
            y,
            n,
            d1,
            i,
        ),
    decreases fuel, 2int, i,
{
    if i > 0 {
        lemma_dirs_agree(fuel, s, x, y, n, d1, d2, i - 1, m);
        let s1 = dirs_spec(fuel, s, x, y, n, d1, i - 1);
        match neighbour(i - 1, x, y, n) {
            Some(t) => {
                lemma_spread_to_agree(fuel, s1, t.0, t.1, n, d1, d2, m);
            },
            None => {},
        }
    }
}

proof fn lemma_spread_to_agree(
    fuel: nat,
    s: (Seq<Seq<Option<char>>>, int, int),
    x: int,
    y: int,
    n: int,
    d1: Seq<int>,
    d2: Seq<int>,
    m: int,
)
    requires
        agree(d1, d2, m),
    ensures
        spread_to_spec(fuel, s, x, y, n, d1).2 >= s.2 + 1,
        spread_to_spec(fuel, s, x, y, n, d1).2 <= m ==> spread_to_spec(fuel, s, x, y, n, d2)
            == spread_to_spec(fuel, s, x, y, n, d1),
    decreases fuel, 1int, 0int,
{
    lemma_spread_agree(fuel, s.0, x, y, n, s.1, d1, d2, s.2 + 1, m);
    if spread_to_spec(fuel, s, x, y, n, d1).2 <= m && s.2 >= 0 {
        assert(draw_at(d1, s.2) == draw_at(d2, s.2));
    }
}

proof fn lemma_retry_agree(
    t: nat,
    s: (Seq<Seq<Option<char>>>, int, int),
    x: int,
    y: int,
    n: int,
    d1: Seq<int>,
    d2: Seq<int>,
    m: int,
)
    requires
        agree(d1, d2, m),
    ensures
        retry_spec(t, s, x, y, n, d1).2 >= s.2,
        retry_spec(t, s, x, y, n, d1).2 <= m ==> retry_spec(t, s, x, y, n, d2) == retry_spec(
            t,
            s,
            x,
            y,
            n,
            d1,
        ),
    decreases t,
{
    if t > 0 {
        lemma_retry_agree((t - 1) as nat, s, x, y, n, d1, d2, m);
        let p = retry_spec((t - 1) as nat, s, x, y, n, d1);
        if p.1 < 2 {
            lemma_spread_agree(fuel_of(p.0), p.0, x, y, n, p.1 - 1, d1, d2, p.2, m);
        }
    }
}

proof fn lemma_retry_stable(t: nat, u: nat, s: (Seq<Seq<Option<char>>>, int, int), x: int, y: int, n: int, d: Seq<int>)
    requires
        t <= u,
        retry_spec(t, s, x, y, n, d).1 >= 2,
    ensures
        retry_spec(u, s, x, y, n, d) == retry_spec(t, s, x, y, n, d),
    decreases u,
{
    if u > t {
        lemma_retry_stable(t, (u - 1) as nat, s, x, y, n, d);
    }
}

proof fn lemma_grow_agree(
    g: Seq<Seq<Option<char>>>,
    x: int,
    y: int,
    n: int,
    ps: int,
    d1: Seq<int>,
    d2: Seq<int>,
    m: int,
)
    requires
        agree(d1, d2, m),
        grow_spec(g, x, y, n, ps, d1).2 <= m,
    ensures
        grow_spec(g, x, y, n, ps, d2) == grow_spec(g, x, y, n, ps, d1),
{
    lemma_spread_agree(fuel_of(g), g, x, y, n, ps, d1, d2, 0, m);
    let s1 = spread_spec(fuel_of(g), g, x, y, n, ps, d1, 0);
    lemma_retry_agree((MAX_ATTEMPTS - 1) as nat, s1, x, y, n, d1, d2, m);
}

proof fn lemma_first_empty_found(g: Seq<Seq<Option<char>>>, x: int, y: int, n: int, j: int)
    requires
        0 <= j <= 8,
        exists|i: int|
            j <= i < 8 && (#[trigger] neighbour(i, x, y, n) matches Some(t) && g[t.1][t.0] is None),
    ensures
        first_empty(g, x, y, n, j) is Some,
    decreases 8 - j,
{
    let i = choose|i: int|
        j <= i < 8 && (#[trigger] neighbour(i, x, y, n) matches Some(t) && g[t.1][t.0] is None);
    if i != j {
        match neighbour(j, x, y, n) {
            Some(t) => {
                if g[t.1][t.0] is None {
                } else {
                    lemma_first_empty_found(g, x, y, n, j + 1);
                }
            },
            None => {
                lemma_first_empty_found(g, x, y, n, j + 1);
            },
        }
    }
}

proof fn lemma_first_empty_is_neighbour(g: Seq<Seq<Option<char>>>, x: int, y: int, n: int, j: int)
    requires
        0 <= j <= 8,
    ensures
        first_empty(g, x, y, n, j) matches Some(t) ==> exists|i: int|
            j <= i < 8 && #[trigger] neighbour(i, x, y, n) == Some(t) && g[t.1][t.0] is None,
    decreases 8 - j,
{
    if j < 8 {
        lemma_first_empty_is_neighbour(g, x, y, n, j + 1);
    }
}

proof fn lemma_grown_same_row(a: Seq<Option<char>>, b: Seq<Option<char>>)
    requires
        a.len() == b.len(),
        forall|j: int| 0 <= j < a.len() ==> #[trigger] b[j] == a[j] || (a[j] is None && b[j] == Some('*')),
    ensures
        count_row_cells(b, |c: Option<char>| is_empty_cell(c)) <= count_row_cells(a, |c: Option<char>| is_empty_cell(c)),
        count_row_cells(b, |c: Option<char>| is_empty_cell(c)) == count_row_cells(a, |c: Option<char>| is_empty_cell(c)) ==> b =~= a,
    decreases a.len(),
{
    if a.len() > 0 {
        let a1 = a.drop_last();
        let b1 = b.drop_last();
        assert forall|j: int| 0 <= j < a1.len() implies #[trigger] b1[j] == a1[j] || (a1[j] is None && b1[j] == Some('*')) by {
            assert(b[j] == a[j] || (a[j] is None && b[j] == Some('*')));
        }
        lemma_grown_same_row(a1, b1);
        assert(b[a.len() - 1] == a[a.len() - 1] || (a[a.len() - 1] is None && b[a.len() - 1] == Some('*')));
        if count_row_cells(b, |c: Option<char>| is_empty_cell(c)) == count_row_cells(a, |c: Option<char>| is_empty_cell(c)) {
            assert(b1 =~= a1);
            assert forall|j: int| 0 <= j < a.len() implies b[j] == a[j] by {
                if j < a.len() - 1 {
                    assert(b1[j] == a1[j]);
                }
            }
        }
    }
}

/// A grid grown from `a` with as many empty cells as `a` is `a`.
proof fn lemma_grown_same(a: Seq<Seq<Option<char>>>, b: Seq<Seq<Option<char>>>)
    requires
        grown(a, b),
    ensures
        count_empty(b) <= count_empty(a),
        count_empty(b) == count_empty(a) ==> b =~= a,
    decreases a.len(),
{
    if a.len() > 0 {
        let a1 = a.drop_last();
        let b1 = b.drop_last();
        assert(grown(a1, b1)) by {
            assert forall|i: int| 0 <= i < a1.len() implies #[trigger] b1[i].len() == a1[i].len() by {
                assert(b[i].len() == a[i].len());
            }
            assert forall|i: int, j: int| 0 <= i < a1.len() && 0 <= j < a1[i].len() implies #[trigger] b1[i][j]
                == a1[i][j] || (a1[i][j] is None && b1[i][j] == Some('*')) by {
                assert(b[i][j] == a[i][j] || (a[i][j] is None && b[i][j] == Some('*')));
            }
        }
        lemma_grown_same(a1, b1);
        let l = a.len() - 1;
        assert(b[l].len() == a[l].len());
        assert forall|j: int| 0 <= j < a[l].len() implies #[trigger] b[l][j] == a[l][j] || (a[l][j] is None && b[l][j] == Some('*')) by {
            assert(b[l][j] == a[l][j] || (a[l][j] is None && b[l][j] == Some('*')));
        }
        lemma_grown_same_row(a[l], b[l]);
        if count_empty(b) == count_empty(a) {
            assert(b1 =~= a1);
            assert(b[l] =~= a[l]);
            assert forall|i: int| 0 <= i < a.len() implies b[i] == a[i] by {
                if i < l {
                    assert(b1[i] == a1[i]);
                }
            }
        }
    }
}

/// Where the draws of a growth come from: the list `given` (zero past its
/// end), or, when `live`, the thread's random generator below `bound`.
/// `log` holds every draw taken so far.
struct Draws<'a> {
    given: &'a Vec<usize>,
    next: usize,
    live: bool,
    bound: usize,
    log: Ghost<Seq<int>>,
}

/// The draws of a list, as numbers.
pub open spec fn draws_of(v: Seq<usize>) -> Seq<int> {
    v.map_values(|a: usize| a as int)
}

impl<'a> Draws<'a> {
    spec fn wf(&self) -> bool {
        &&& forall|i: int| 0 <= i < self.log@.len() ==> 0 <= #[trigger] self.log@[i]
        &&& self.live ==> self.bound >= 1 && forall|i: int|
            0 <= i < self.log@.len() ==> #[trigger] self.log@[i] < self.bound
        &&& !self.live ==> self.next == (if self.log@.len() < self.given@.len() {
            self.log@.len()
        } else {
            self.given@.len() as nat
        }) && agree(self.log@, draws_of(self.given@), self.log@.len() as int)
    }

    spec fn same_source(&self, other: &Self) -> bool {
        &&& self.given == other.given
        &&& self.live == other.live
        &&& self.bound == other.bound
    }

    /// The next draw, which is also appended to the log.
    fn draw(&mut self) -> (v: usize)
        requires
            old(self).wf(),
        ensures
            final(self).wf(),
            final(self).same_source(old(self)),
            final(self).log@ == old(self).log@.push(v as int),
    {
        let v = if self.live {
            random_below(self.bound)
        } else if self.next < self.given.len() {
            let w = self.given[self.next];
            self.next = self.next + 1;
            w
        } else {
            0
        };
        let ghost old_log = self.log@;
        self.log = Ghost(self.log@.push(v as int));
        proof {
            let l = self.log@;
            assert forall|i: int| 0 <= i < l.len() implies #[trigger] draw_at(l, i) == draw_at(
                draws_of(self.given@),
                i,
            ) || self.live by {
                if !self.live && i < old_log.len() {
                    assert(draw_at(old_log, i) == draw_at(draws_of(self.given@), i));
                }
            }
        }
        v
    }
}

/// The `i`-th neighbour of `(x, y)` in a frame of side `n` (see
/// `neighbour`).
fn neighbour_at(i: usize, x: usize, y: usize, n: usize) -> (r: Option<(usize, usize)>)
    requires
        i < 8,
        x < n,
        y < n,
    ensures
        r is Some == neighbour(i as int, x as int, y as int, n as int) is Some,
        r matches Some(t) ==> neighbour(i as int, x as int, y as int, n as int) == Some(
            (t.0 as int, t.1 as int),
        ) && t.0 < n && t.1 < n,
{
    if i == 0 {
        if x + 1 < n { Some((x + 1, y)) } else { None }
    } else if i == 1 {
        if y + 1 < n { Some((x, y + 1)) } else { None }
    } else if i == 2 {
        if x > 0 { Some((x - 1, y)) } else { None }
    } else if i == 3 {
        if y > 0 { Some((x, y - 1)) } else { None }
    } else if i == 4 {
        if x + 1 < n && y + 1 < n { Some((x + 1, y + 1)) } else { None }
    } else if i == 5 {
        if y + 1 < n && x > 0 { Some((x - 1, y + 1)) } else { None }
    } else if i == 6 {
        if x > 0 && y > 0 { Some((x - 1, y - 1)) } else { None }
    } else {
        if y > 0 && x + 1 < n { Some((x + 1, y - 1)) } else { None }
    }
}

proof fn lemma_neighbour_adjacent(i: int, x: int, y: int, n: int)
    requires
        0 <= i < 8,
    ensures
        neighbour(i, x, y, n) matches Some(t) ==> adjacent(t.1, t.0, y, x),
{
}

/// In an empty frame of side two or more, every cell has an empty
/// neighbour.
pub proof fn lemma_empty_frame_has_neighbour(g: Seq<Seq<Option<char>>>, x: int, y: int, n: int)
    requires
        n >= 2,
        0 <= x < n,
        0 <= y < n,
        g.len() == n,
        forall|i: int, j: int| 0 <= i < n && 0 <= j < n ==> #[trigger] g[i][j] is None,
    ensures
        has_empty_neighbour(g, x, y, n),
{
    if x + 1 < n {
        assert(neighbour(0, x, y, n) == Some((x + 1, y)));
        assert(g[y][x + 1] is None);
    } else {
        assert(neighbour(2, x, y, n) == Some((x - 1, y)));
        assert(g[y][x - 1] is None);
    }
}

impl Piece {
    /// Marks `(x, y)` and tries each of its neighbours in turn (see
    /// `spread_to`). Returns `piece_size` plus one for each cell marked on
    /// the way, the first counted even when it was marked already.
    fn spread(&mut self, x: usize, y: usize, piece_size: usize, src: &mut Draws, Ghost(fuel): Ghost<nat>) -> (r:
        usize)
        requires
            old(self).wf(),
            x < old(self).size,
            y < old(self).size,
            old(src).wf(),
            piece_size + count_empty(old(self)@) + Piece::marked_already(old(self)@, y as int, x as int)
                <= usize::MAX,
            fuel > count_empty(old(self)@) + Piece::marked_already(old(self)@, y as int, x as int),
        ensures
            final(self).wf(),
            final(self).size == old(self).size,
            final(self).density == old(self).density,
            final(src).wf(),
            final(src).same_source(old(src)),
            old(src).log@.len() <= final(src).log@.len(),
            agree(old(src).log@, final(src).log@, old(src).log@.len() as int),
            grown(mark(old(self)@, y as int, x as int), final(self)@),
            r + count_empty(final(self)@) == piece_size + count_empty(old(self)@) + Piece::marked_already(
                old(self)@,
                y as int,
                x as int,
            ),
            count_empty(final(self)@) + 1 <= count_empty(old(self)@) + Piece::marked_already(
                old(self)@,
                y as int,
                x as int,
            ),
            linked_from(old(self)@, final(self)@, y as int, x as int),
            (final(self)@, r as int, final(src).log@.len() as int) == spread_spec(
                fuel,
                old(self)@,
                x as int,
                y as int,
                old(self).size as int,
                piece_size as int,
                final(src).log@,
                old(src).log@.len() as int,
            ),
        decreases fuel, 0int,
    {
        let ghost g0 = self@;
        let ghost log0 = src.log@;
        let ghost src0 = *src;
        let ghost density0 = self.density;
        let ghost ma = Piece::marked_already(g0, y as int, x as int);
        proof {
            assert(self@[y as int].len() == self.size);
            lemma_mark(self@, y as int, x as int);
        }
        self.piece[y][x] = Some('*');
        proof {
            assert(self@ =~= mark(g0, y as int, x as int));
            lemma_count_bound(self@, self.size as int, |c: Option<char>| is_empty_cell(c));
        }
        let ghost g1 = self@;
        let ghost mut rank: spec_fn(int, int) -> nat = |i: int, j: int| 0nat;
        proof {
            assert(linked(g0, g1, y as int, x as int, rank)) by {
                assert forall|i: int, j: int| #[trigger] fresh(g0, g1, i, j) && (i != y || j != x) implies false by {
                    assert(g1[i][j] == g0[i][j]);
                }
            }
        }
        let n = self.size;
        let mut ps = piece_size + 1;
        let ghost s0 = (g1, ps as int, log0.len() as int);
        let mut i: usize = 0;
        while i < 8
            invariant
                i <= 8,
                self.wf(),
                self.size == n,
                self.density == density0,
                x < n,
                y < n,
                g0.len() == n,
                g0[y as int].len() == n,
                src.wf(),
                src.same_source(&src0),
                log0.len() <= src.log@.len(),
                agree(log0, src.log@, log0.len() as int),
                g1 == mark(g0, y as int, x as int),
                grown(g1, self@),
                ma == Piece::marked_already(g0, y as int, x as int),
                ps + count_empty(self@) == piece_size + count_empty(g0) + ma,
                piece_size + count_empty(g0) + ma <= usize::MAX,
                count_empty(self@) + 1 <= count_empty(g0) + ma,
                fuel > count_empty(g0) + ma,
                linked(g0, self@, y as int, x as int, rank),
                s0 == (g1, piece_size + 1, log0.len() as int),
                (self@, ps as int, src.log@.len() as int) == dirs_spec(
                    (fuel - 1) as nat,
                    s0,
                    x as int,
                    y as int,
                    n as int,
                    src.log@,
                    i as int,
                ),
            decreases 8 - i,
        {
            let t = neighbour_at(i, x, y, n);
            match t {
                Some((tx, ty)) => {
                    let ghost before = self@;
                    let ghost lb = src.log@;
                    proof {
                        lemma_count_bound(before, n as int, |c: Option<char>| is_empty_cell(c));
                    }
                    ps = self.spread_to(tx, ty, ps, src, Ghost((fuel - 1) as nat));
                    proof {
                        lemma_grown_trans(g1, before, self@);
                        let after = self@;
                        let (ttx, tty) = (tx as int, ty as int);
                        let rd = choose|rd: spec_fn(int, int) -> nat| #[trigger] linked(before, after, tty, ttx, rd);
                        lemma_neighbour_adjacent(i as int, x as int, y as int, n as int);
                        lemma_link(g0, before, after, y as int, x as int, rank, tty, ttx, rd);
                        rank = combine(before, after, rank, rd);
                        lemma_dirs_agree((fuel - 1) as nat, s0, x as int, y as int, n as int, lb, src.log@, i as int, lb.len() as int);
                    }
                },
                None => {},
            }
            i = i + 1;
        }
        proof {
            assert(linked(g0, self@, y as int, x as int, rank));
        }
        ps
    }

    /// Takes a draw, and spreads to `(x, y)` when the draw is one and the
    /// cell is empty.
    fn spread_to(&mut self, x: usize, y: usize, piece_size: usize, src: &mut Draws, Ghost(fuel): Ghost<nat>) -> (r:
        usize)
        requires
            old(self).wf(),
            x < old(self).size,
            y < old(self).size,
            old(src).wf(),
            piece_size + count_empty(old(self)@) <= usize::MAX,
            fuel > count_empty(old(self)@),
        ensures
            final(self).wf(),
            final(self).size == old(self).size,
            final(self).density == old(self).density,
            final(src).wf(),
            final(src).same_source(old(src)),
            old(src).log@.len() <= final(src).log@.len(),
            agree(old(src).log@, final(src).log@, old(src).log@.len() as int),
            grown(old(self)@, final(self)@),
            r + count_empty(final(self)@) == piece_size + count_empty(old(self)@),
            count_empty(final(self)@) <= count_empty(old(self)@),
            linked_from(old(self)@, final(self)@, y as int, x as int),
            final(self)@ == old(self)@ || fresh(old(self)@, final(self)@, y as int, x as int),
            (final(self)@, r as int, final(src).log@.len() as int) == spread_to_spec(
                fuel,
                (old(self)@, piece_size as int, old(src).log@.len() as int),
                x as int,
                y as int,
                old(self).size as int,
                final(src).log@,
            ),
        decreases fuel, 1int,
    {
        let ghost g0 = self@;
        let ghost l0 = src.log@;
        proof {
            assert(self@[y as int].len() == self.size);
            lemma_count_bound(self@, self.size as int, |c: Option<char>| is_empty_cell(c));
        }
        let v = src.draw();
        let ghost l1 = src.log@;
        proof {
            assert forall|i: int| 0 <= i < l0.len() implies #[trigger] draw_at(l0, i) == draw_at(l1, i) by {
                assert(l1[i] == l0[i]);
            }
        }
        if v == 1 && self.piece[y][x].is_none() {
            let r = self.spread(x, y, piece_size, src, Ghost(fuel));
            proof {
                assert(fresh(g0, self@, y as int, x as int)) by {
                    let g1 = mark(g0, y as int, x as int);
                    assert(g1[y as int][x as int] == Some('*'));
                }
                assert(draw_at(l1, l0.len() as int) == draw_at(src.log@, l0.len() as int));
            }
            r
        } else {
            proof {
                let zero = |i: int, j: int| 0nat;
                assert(linked(g0, g0, y as int, x as int, zero));
            }
            piece_size
        }
    }

    /// The first empty neighbour of `(x, y)`, in the order of `neighbour`.
    fn find_empty_neighbour(&self, x: usize, y: usize) -> (r: Option<(usize, usize)>)
        requires
            self.wf(),
            x < self.size,
            y < self.size,
        ensures
            r is Some == first_empty(self@, x as int, y as int, self.size as int, 0) is Some,
            r matches Some(t) ==> first_empty(self@, x as int, y as int, self.size as int, 0) == Some(
                (t.0 as int, t.1 as int),
            ) && t.0 < self.size && t.1 < self.size,
    {
        let n = self.size;
        let mut i: usize = 0;
        while i < 8
            invariant
                i <= 8,
                self.wf(),
                n == self.size,
                x < n,
                y < n,
                first_empty(self@, x as int, y as int, n as int, 0) == first_empty(
                    self@,
                    x as int,
                    y as int,
                    n as int,
                    i as int,
                ),
            decreases 8 - i,
        {
            match neighbour_at(i, x, y, n) {
                Some((tx, ty)) => {
                    proof {
                        assert(self@[ty as int].len() == n);
                    }
                    if self.piece[ty][tx].is_none() {
                        return Some((tx, ty));
                    }
                },
                None => {},
            }
            i = i + 1;
        }
        None
    }

    /// The whole growth from `(x, y)` (see `grow_spec`), with the draws of
    /// `src`.
    fn grow(&mut self, x: usize, y: usize, piece_size: usize, src: &mut Draws) -> (r: usize)
        requires
            old(self).wf(),
            x < old(self).size,
            y < old(self).size,
            old(src).wf(),
            old(src).log@.len() == 0,
            piece_size + old(self).size * old(self).size < usize::MAX,
            piece_size >= 1 || has_empty_neighbour(old(self)@, x as int, y as int, old(self).size as int),
        ensures
            final(self).wf(),
            final(self).size == old(self).size,
            final(self).density == old(self).density,
            final(src).wf(),
            final(src).same_source(old(src)),
            grown(mark(old(self)@, y as int, x as int), final(self)@),
            r + count_empty(final(self)@) == piece_size + count_empty(old(self)@) + Piece::marked_already(
                old(self)@,
                y as int,
                x as int,
            ),
            r > piece_size,
            r >= 2,
            linked_from(old(self)@, final(self)@, y as int, x as int),
            (final(self)@, r as int, final(src).log@.len() as int) == grow_spec(
                old(self)@,
                x as int,
                y as int,
                old(self).size as int,
                piece_size as int,
                final(src).log@,
            ),
    {
        let ghost g0 = self@;
        let ghost g1 = mark(g0, y as int, x as int);
        let ghost src0 = *src;
        let ghost density0 = self.density;
        let ghost ma = Piece::marked_already(g0, y as int, x as int);
        let n = self.size;
        proof {
            lemma_count_bound(self@, self.size as int, |c: Option<char>| is_empty_cell(c));
            assert(g0[y as int].len() == n);
        }
        let mut r = self.spread(x, y, piece_size, src, Ghost(fuel_of(g0)));
        let ghost s1 = (self@, r as int, src.log@.len() as int);
        let ghost mut rank = choose|rk: spec_fn(int, int) -> nat| #[trigger] linked(g0, self@, y as int, x as int, rk);
        let mut attempts: u32 = 1;
        while r < 2 && attempts < MAX_ATTEMPTS
            invariant
                1 <= attempts <= MAX_ATTEMPTS,
                self.wf(),
                self.size == n,
                self.density == density0,
                x < n,
                y < n,
                g0.len() == n,
                g0[y as int].len() == n,
                g1 == mark(g0, y as int, x as int),
                grown(g1, self@),
                src.wf(),
                src.same_source(&src0),
                ma == Piece::marked_already(g0, y as int, x as int),
                r + count_empty(self@) == piece_size + count_empty(g0) + ma,
                r > piece_size,
                piece_size + n * n < usize::MAX,
                linked(g0, self@, y as int, x as int, rank),
                s1 == spread_spec(fuel_of(g0), g0, x as int, y as int, n as int, piece_size as int, src.log@, 0),
                (self@, r as int, src.log@.len() as int) == retry_spec(
                    (attempts - 1) as nat,
                    s1,
                    x as int,
                    y as int,
                    n as int,
                    src.log@,
                ),
            decreases MAX_ATTEMPTS - attempts,
        {
            let ghost before = self@;
            let ghost lb = src.log@;
            proof {
                assert(g1[y as int][x as int] == Some('*'));
                assert(before[y as int].len() == n);
                assert(before[y as int][x as int] == Some('*'));
                assert(mark(before, y as int, x as int) =~= before) by {
                    assert(before[y as int].update(x as int, Some('*')) =~= before[y as int]);
                }
                lemma_count_bound(before, n as int, |c: Option<char>| is_empty_cell(c));
            }
            r = self.spread(x, y, r - 1, src, Ghost(fuel_of(before)));
            attempts = attempts + 1;
            proof {
                lemma_grown_trans(g1, before, self@);
                let after = self@;
                let rd = choose|rd: spec_fn(int, int) -> nat| #[trigger] linked(before, after, y as int, x as int, rd);
                lemma_link(g0, before, after, y as int, x as int, rank, y as int, x as int, rd);
                rank = combine(before, after, rank, rd);
                lemma_spread_agree(fuel_of(g0), g0, x as int, y as int, n as int, piece_size as int, lb, src.log@, 0, lb.len() as int);
                lemma_retry_agree((attempts - 2) as nat, s1, x as int, y as int, n as int, lb, src.log@, lb.len() as int);
            }
        }
        proof {
            if r >= 2 {
                lemma_retry_stable((attempts - 1) as nat, (MAX_ATTEMPTS - 1) as nat, s1, x as int, y as int, n as int, src.log@);
            }
        }
        if r < 2 {
            let ghost cur = self@;
            proof {
                lemma_mark(g0, y as int, x as int);
                lemma_grown_same(g1, cur);
                assert(cur =~= g1);
                let k = choose|k: int|
                    0 <= k < 8 && (#[trigger] neighbour(k, x as int, y as int, n as int) matches Some(t) && g0[t.1][t.0] is None);
                lemma_neighbour_adjacent(k, x as int, y as int, n as int);
                let t = neighbour(k, x as int, y as int, n as int)->0;
                assert(g1[t.1][t.0] is None);
                lemma_first_empty_found(cur, x as int, y as int, n as int, 0);
            }
            match self.find_empty_neighbour(x, y) {
                Some((tx, ty)) => {
                    proof {
                        lemma_first_empty_is_neighbour(cur, x as int, y as int, n as int, 0);
                        assert(self@[ty as int].len() == n);
                        lemma_mark(cur, ty as int, tx as int);
                        lemma_count_bound(cur, n as int, |c: Option<char>| is_empty_cell(c));
                    }
                    self.piece[ty][tx] = Some('*');
                    r = r + 1;
                    proof {
                        let after = self@;
                        assert(after =~= mark(cur, ty as int, tx as int));
                        let (ttx, tty) = (tx as int, ty as int);
                        assert(fresh(cur, after, tty, ttx));
                        let zero = |i: int, j: int| 0nat;
                        assert(linked(cur, after, tty, ttx, zero)) by {
                            assert forall|i: int, j: int| #[trigger] fresh(cur, after, i, j) && (i != tty || j != ttx) implies false by {
                                assert(after[i][j] == cur[i][j]);
                            }
                        }
                        let k = choose|k: int| 0 <= k < 8 && #[trigger] neighbour(k, x as int, y as int, n as int) == Some((ttx, tty)) && cur[tty][ttx] is None;
                        lemma_neighbour_adjacent(k, x as int, y as int, n as int);
                        assert(grown(cur, after));
                        lemma_grown_trans(g1, cur, after);
                        lemma_link(g0, cur, after, y as int, x as int, rank, tty, ttx, zero);
                        rank = combine(cur, after, rank, zero);
                    }
                },
                None => {},
            }
        }
        proof {
            assert(linked(g0, self@, y as int, x as int, rank));
        }
        r
    }

    /// Grows a random piece from `(x, y)`: marks it, then tries each empty
    /// neighbour in turn (right, below, left, above, then the diagonals),
    /// spreading there with one chance in `density`, and on from each cell
    /// reached. When nothing but the first cell was reached the growth
    /// starts over, up to `MAX_ATTEMPTS` tries in all, after which the
    /// first empty neighbour is taken. Returns `piece_size` plus one for
    /// each cell marked, the first counted even when it was marked already.
    pub fn generate_piece(&mut self, x: usize, y: usize, piece_size: usize) -> (r: usize)
        requires
            old(self).wf(),
            x < old(self).size,
            y < old(self).size,
            old(self).size >= 2 ==> old(self).density >= 1,
            piece_size + old(self).size * old(self).size < usize::MAX,
            piece_size >= 1 || (old(self).density >= 2 && has_empty_neighbour(
                old(self)@,
                x as int,
                y as int,
                old(self).size as int,
            )),
        ensures
            final(self).wf(),
            final(self).size == old(self).size,
            final(self).density == old(self).density,
            grown(mark(old(self)@, y as int, x as int), final(self)@),
            r + count_empty(final(self)@) == piece_size + count_empty(old(self)@) + Piece::marked_already(
                old(self)@,
                y as int,
                x as int,
            ),
            r > piece_size,
            r >= 2,
            linked_from(old(self)@, final(self)@, y as int, x as int),
            exists|d: Seq<int>|
                (forall|i: int|
                    0 <= i < d.len() ==> 0 <= #[trigger] d[i] && (old(self).density >= 1 ==> d[i]
                        < old(self).density)) && #[trigger] grow_spec(
                    old(self)@,
                    x as int,
                    y as int,
                    old(self).size as int,
                    piece_size as int,
                    d,
                ).0 == final(self)@ && grow_spec(
                    old(self)@,
                    x as int,
                    y as int,
                    old(self).size as int,
                    piece_size as int,
                    d,
                ).1 == r,
    {
        let bound: usize = if self.density == 0 {
            1
        } else {
            self.density as usize
        };
        let none: Vec<usize> = Vec::new();
        let mut src = Draws { given: &none, next: 0, live: true, bound, log: Ghost(Seq::empty()) };
        let r = self.grow(x, y, piece_size, &mut src);
        proof {
            let d = src.log@;
            assert(forall|i: int|
                0 <= i < d.len() ==> 0 <= #[trigger] d[i] && (old(self).density >= 1 ==> d[i]
                    < old(self).density));
            assert(grow_spec(old(self)@, x as int, y as int, self.size as int, piece_size as int, d).0
                == self@);
        }
        r
    }

    /// Grows a piece from `(x, y)` as `generate_piece` does, with the draws
    /// `draws` in place of random ones, taken in order (zero once they run
    /// out): the growth spreads to a neighbour where the draw is one.
    pub fn generate_piece_with_draws(&mut self, x: usize, y: usize, piece_size: usize, draws: &Vec<usize>) -> (r:
        usize)
        requires
            old(self).wf(),
            x < old(self).size,
            y < old(self).size,
            piece_size + old(self).size * old(self).size < usize::MAX,
            piece_size >= 1 || has_empty_neighbour(old(self)@, x as int, y as int, old(self).size as int),
        ensures
            final(self).wf(),
            final(self).size == old(self).size,
            final(self).density == old(self).density,
            r >= 2,
            final(self)@ == grow_spec(
                old(self)@,
                x as int,
                y as int,
                old(self).size as int,
                piece_size as int,
                draws_of(draws@),
            ).0,
            r == grow_spec(
                old(self)@,
                x as int,
                y as int,
                old(self).size as int,
                piece_size as int,
                draws_of(draws@),
            ).1,
    {
        let mut src = Draws { given: draws, next: 0, live: false, bound: 1, log: Ghost(Seq::empty()) };
        let r = self.grow(x, y, piece_size, &mut src);
        proof {
            let l = src.log@;
            lemma_grow_agree(old(self)@, x as int, y as int, self.size as int, piece_size as int, l, draws_of(draws@), l.len() as int);
        }
        r
    }
}

/// A growth starts over from its first cell for as long as a try reaches
/// nothing but that cell, and stops at the first try that reaches more,
/// within `MAX_ATTEMPTS` tries: when `tries` lists the tries one after the
/// other (the first on `g` from count `ps`, each next one on the frame the
/// failed one left, from count zero, with the draws that follow), every one
/// but the last reaching only the first cell and the last reaching more,
/// the growth gives the last one.
pub proof fn lemma_growth_starts_over(
    g: Seq<Seq<Option<char>>>,
    x: int,
    y: int,
    n: int,
    ps: int,
    d: Seq<int>,
    tries: Seq<(Seq<Seq<Option<char>>>, int, int)>,
)
    requires
        1 <= tries.len() <= MAX_ATTEMPTS,
        tries[0] == spread_spec(fuel_of(g), g, x, y, n, ps, d, 0),
        forall|j: int|
            0 <= j < tries.len() - 1 ==> (#[trigger] tries[j]).1 == 1 && tries[j + 1] == spread_spec(
                fuel_of(tries[j].0),
                tries[j].0,
                x,
                y,
                n,
                0,
                d,
                tries[j].2,
            ),
        tries.last().1 >= 2,
    ensures
        grow_spec(g, x, y, n, ps, d) == tries.last(),
{
    let last = tries.len() - 1;
    assert forall|j: int| 0 <= j <= last implies retry_spec(j as nat, tries[0], x, y, n, d) == #[trigger] tries[j] by {
        lemma_retry_chain(tries[0], x, y, n, d, tries, j);
    }
    assert(retry_spec(last as nat, tries[0], x, y, n, d) == tries[last]);
    lemma_retry_stable(last as nat, (MAX_ATTEMPTS - 1) as nat, tries[0], x, y, n, d);
}

proof fn lemma_retry_chain(
    s: (Seq<Seq<Option<char>>>, int, int),
    x: int,
    y: int,
    n: int,
    d: Seq<int>,
    tries: Seq<(Seq<Seq<Option<char>>>, int, int)>,
    j: int,
)
    requires
        0 <= j < tries.len(),
        tries[0] == s,
        forall|k: int|
            0 <= k < tries.len() - 1 ==> (#[trigger] tries[k]).1 == 1 && tries[k + 1] == spread_spec(
                fuel_of(tries[k].0),
                tries[k].0,
                x,
                y,
                n,
                0,
                d,
                tries[k].2,
            ),
    ensures
        retry_spec(j as nat, s, x, y, n, d) == tries[j],
    decreases j,
{
    if j > 0 {
        lemma_retry_chain(s, x, y, n, d, tries, j - 1);
        assert(tries[j - 1].1 == 1);
    }
}

} // verus!
